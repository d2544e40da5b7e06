//! The bundled word lists: three fixed 256-entry tables, one word per byte
//! value, in the style of the EFF short wordlist and of the PGPfone
//! two- and three-syllable lists. Each list is sorted (the three-syllable
//! list up to one historical inversion), and no word of a list is a prefix
//! of another word of the same list once case-folded — the property the
//! round-trip guarantee rests on, checked at decoder construction.

use vstd::prelude::*;

verus! {

/// The EFF-style word list (encode): word of byte `b` at index `b`.
pub open spec fn eff_words() -> Seq<&'static str> {
    seq!["aardvark", "abacus", "abdomen", "absurd", "academy", "acuteness", "adjourn", "admiral", "adopted", "advance", "aerobic", "affix", "agenda", "aileron", "ajar", "alabama",]
        + seq!["albatross", "alchemy", "alfalfa", "algebra", "alias", "alibi", "almanac", "aloe", "alpine", "already", "altitude", "amber", "ambush", "amend", "amigo", "ammo",]
        + seq!["amnesty", "amoeba", "ample", "amulet", "anagram", "anchor", "anecdote", "angelfish", "anguish", "animal", "ankle", "annex", "anthem", "antler", "anvil", "aorta",]
        + seq!["apache", "apex", "aplomb", "apostle", "apple", "apricot", "aqua", "arbitrate", "arcade", "ardent", "arena", "argon", "arid", "armoire", "aroma", "arrow",]
        + seq!["arsenal", "artichoke", "ascent", "ashen", "asleep", "aspen", "asphalt", "aster", "asylum", "athlete", "atlas", "atom", "attic", "auburn", "auction", "audio",]
        + seq!["august", "aunt", "avatar", "avenue", "avid", "avocado", "awning", "axiom", "azalea", "azure", "babble", "bacon", "badge", "bagel", "bakery", "balance",]
        + seq!["balcony", "bamboo", "banana", "banjo", "barbecue", "barley", "barn", "basil", "basket", "baton", "bazaar", "beach", "beacon", "beagle", "beaker", "beam",]
        + seq!["bean", "bear", "beaver", "bed", "beech", "beet", "begonia", "behave", "belfry", "bell", "belt", "bench", "beret", "berry", "bicycle", "billow",]
        + seq!["bingo", "biology", "birch", "bishop", "bison", "bitter", "blanket", "blazer", "bleach", "blimp", "blossom", "blueprint", "boa", "bobcat", "bogus", "bolt",]
        + seq!["bonfire", "bongo", "bonnet", "book", "borax", "botany", "boulder", "bounce", "bowtie", "boxcar", "bramble", "bravado", "breeze", "brick", "bridge", "brisket",]
        + seq!["broccoli", "bronze", "brook", "brute", "bubble", "buckle", "budget", "buffalo", "bugle", "bulb", "bungalow", "bunk", "burlap", "bus", "butter", "buzzard",]
        + seq!["cabbage", "cactus", "cadet", "cafe", "cage", "cake", "calendar", "calico", "camel", "cameo", "camera", "canal", "candle", "canoe", "canyon", "capsule",]
        + seq!["caravan", "carbon", "cardigan", "cargo", "carnival", "carousel", "carpet", "cartoon", "cascade", "cashew", "casino", "castle", "catalog", "catfish", "cavern", "cedar",]
        + seq!["celery", "cello", "cement", "census", "century", "ceramic", "chair", "chalk", "chamber", "chaos", "chapel", "charcoal", "chess", "chimney", "chipmunk", "chorus",]
        + seq!["chrome", "cinder", "cinnamon", "cipher", "circus", "citrus", "city", "civic", "clam", "clarinet", "clay", "clinic", "clover", "cobalt", "cobweb", "cocoa",]
        + seq!["coconut", "coffee", "cogwheel", "coil", "cola", "cold", "collar", "comet", "compass", "concert", "condor", "congo", "conifer", "copper", "coral", "cork",]
}

/// The two-syllable word list (encode), used at even positions of the
/// paired scheme.
pub open spec fn pgp_two_syllable_words() -> Seq<&'static str> {
    seq!["aardvark", "absurd", "accrue", "acme", "adrift", "adult", "advance", "aerobic", "affix", "agenda", "aileron", "ajar", "alabama", "albatross", "alchemy", "alfalfa",]
        + seq!["algebra", "alias", "alibi", "almanac", "aloe", "alpine", "already", "altitude", "amber", "ambush", "amend", "amigo", "ammo", "amnesty", "amoeba", "ample",]
        + seq!["amulet", "anagram", "anchor", "anecdote", "angelfish", "anguish", "animal", "ankle", "annex", "anthem", "antler", "anvil", "aorta", "apache", "apex", "aplomb",]
        + seq!["apostle", "apple", "apricot", "aqua", "arbitrate", "arcade", "ardent", "arena", "argon", "arid", "armoire", "aroma", "arrow", "arsenal", "artichoke", "ascent",]
        + seq!["ashen", "asleep", "aspen", "asphalt", "aster", "asylum", "athlete", "atlas", "atom", "attic", "auburn", "auction", "audio", "august", "aunt", "avatar",]
        + seq!["avenue", "avid", "avocado", "awning", "axiom", "azalea", "azure", "babble", "bacon", "badge", "bagel", "bakery", "balance", "balcony", "bamboo", "banana",]
        + seq!["banjo", "barbecue", "barley", "barn", "basil", "basket", "baton", "bazaar", "beach", "beacon", "beagle", "beaker", "beam", "bean", "bear", "beaver",]
        + seq!["bed", "beech", "beet", "begonia", "behave", "belfry", "bell", "belt", "bench", "beret", "berry", "bicycle", "billow", "bingo", "biology", "birch",]
        + seq!["bishop", "bison", "bitter", "blanket", "blazer", "bleach", "blimp", "blossom", "blueprint", "boa", "bobcat", "bogus", "bolt", "bonfire", "bongo", "bonnet",]
        + seq!["book", "borax", "botany", "boulder", "bounce", "bowtie", "boxcar", "bramble", "bravado", "breeze", "brick", "bridge", "brisket", "broccoli", "bronze", "brook",]
        + seq!["brute", "bubble", "buckle", "budget", "buffalo", "bugle", "bulb", "bungalow", "bunk", "burlap", "bus", "butter", "buzzard", "cabbage", "cactus", "cadet",]
        + seq!["cafe", "cage", "cake", "calendar", "calico", "camel", "cameo", "camera", "canal", "candle", "canoe", "canyon", "capsule", "caravan", "carbon", "cardigan",]
        + seq!["cargo", "carnival", "carousel", "carpet", "cartoon", "cascade", "cashew", "casino", "castle", "catalog", "catfish", "cavern", "cedar", "celery", "cello", "cement",]
        + seq!["census", "century", "ceramic", "chair", "chalk", "chamber", "chaos", "chapel", "charcoal", "chess", "chimney", "chipmunk", "chorus", "chrome", "cinder", "cinnamon",]
        + seq!["cipher", "circus", "citrus", "city", "civic", "clam", "clarinet", "clay", "clinic", "clover", "cobalt", "cobweb", "cocoa", "coconut", "coffee", "cogwheel",]
        + seq!["coil", "cola", "cold", "collar", "comet", "compass", "concert", "condor", "congo", "conifer", "copper", "coral", "cork", "corn", "cosmos", "cotton",]
}

/// The three-syllable word list (encode), used at odd positions of the
/// paired scheme.
pub open spec fn pgp_three_syllable_words() -> Seq<&'static str> {
    seq!["adroitness", "adviser", "aftermath", "aggregate", "alkali", "amulet", "anagram", "anchor", "anecdote", "angelfish", "anguish", "animal", "ankle", "annex", "anthem", "antler",]
        + seq!["anvil", "aorta", "apache", "apex", "aplomb", "applicant", "Apollo", "apostle", "apple", "apricot", "aqua", "arbitrate", "arcade", "ardent", "arena", "argon",]
        + seq!["arid", "armoire", "aroma", "arrow", "arsenal", "artichoke", "ascent", "ashen", "asleep", "aspen", "asphalt", "aster", "asylum", "athlete", "atlas", "atom",]
        + seq!["attic", "auburn", "auction", "audio", "august", "aunt", "avatar", "avenue", "avid", "avocado", "awning", "axiom", "azalea", "azure", "babble", "bacon",]
        + seq!["badge", "bagel", "bakery", "balance", "balcony", "bamboo", "banana", "banjo", "barbecue", "barley", "barn", "basil", "basket", "baton", "bazaar", "beach",]
        + seq!["beacon", "beagle", "beaker", "beam", "bean", "bear", "beaver", "bed", "beech", "beet", "begonia", "behave", "belfry", "bell", "belt", "bench",]
        + seq!["beret", "berry", "bicycle", "billow", "bingo", "biology", "birch", "bishop", "bison", "bitter", "blanket", "blazer", "bleach", "blimp", "blossom", "blueprint",]
        + seq!["boa", "bobcat", "bogus", "bolt", "bonfire", "bongo", "bonnet", "book", "borax", "botany", "boulder", "bounce", "bowtie", "boxcar", "bramble", "bravado",]
        + seq!["breeze", "brick", "bridge", "brisket", "broccoli", "bronze", "brook", "brute", "bubble", "buckle", "budget", "buffalo", "bugle", "bulb", "bungalow", "bunk",]
        + seq!["burlap", "bus", "butter", "buzzard", "cabbage", "cactus", "cadet", "cafe", "cage", "cake", "calendar", "calico", "camel", "cameo", "camera", "canal",]
        + seq!["candle", "canoe", "canyon", "capsule", "caravan", "carbon", "cardigan", "cargo", "carnival", "carousel", "carpet", "cartoon", "cascade", "cashew", "casino", "castle",]
        + seq!["catalog", "catfish", "cavern", "cedar", "celery", "cello", "cement", "census", "century", "ceramic", "chair", "chalk", "chamber", "chaos", "chapel", "charcoal",]
        + seq!["chess", "chimney", "chipmunk", "chorus", "chrome", "cinder", "cinnamon", "cipher", "circus", "citrus", "city", "civic", "clam", "clarinet", "clay", "clinic",]
        + seq!["clover", "cobalt", "cobweb", "cocoa", "coconut", "coffee", "cogwheel", "coil", "cola", "cold", "collar", "comet", "compass", "concert", "condor", "congo",]
        + seq!["conifer", "copper", "coral", "cork", "corn", "cosmos", "cotton", "cougar", "cove", "coyote", "crater", "crayon", "credit", "cricket", "crimson", "crocus",]
        + seq!["crouton", "crystal", "cube", "cuckoo", "cuff", "culvert", "cupcake", "curfew", "curtain", "cushion", "cyclone", "cymbal", "cypress", "daffodil", "dagger", "dairy",]
}

/// The EFF-style word list, as a vector.
pub fn wl_eff_encode() -> (r: Vec<&'static str>)
    ensures
        r@ == eff_words(),
        r@.len() == 256,
{
    let mut r: Vec<&'static str> = Vec::new();
    let mut part_00: Vec<&'static str> = vec!["aardvark", "abacus", "abdomen", "absurd", "academy", "acuteness", "adjourn", "admiral", "adopted", "advance", "aerobic", "affix", "agenda", "aileron", "ajar", "alabama",];
    let mut part_01: Vec<&'static str> = vec!["albatross", "alchemy", "alfalfa", "algebra", "alias", "alibi", "almanac", "aloe", "alpine", "already", "altitude", "amber", "ambush", "amend", "amigo", "ammo",];
    let mut part_02: Vec<&'static str> = vec!["amnesty", "amoeba", "ample", "amulet", "anagram", "anchor", "anecdote", "angelfish", "anguish", "animal", "ankle", "annex", "anthem", "antler", "anvil", "aorta",];
    let mut part_03: Vec<&'static str> = vec!["apache", "apex", "aplomb", "apostle", "apple", "apricot", "aqua", "arbitrate", "arcade", "ardent", "arena", "argon", "arid", "armoire", "aroma", "arrow",];
    let mut part_04: Vec<&'static str> = vec!["arsenal", "artichoke", "ascent", "ashen", "asleep", "aspen", "asphalt", "aster", "asylum", "athlete", "atlas", "atom", "attic", "auburn", "auction", "audio",];
    let mut part_05: Vec<&'static str> = vec!["august", "aunt", "avatar", "avenue", "avid", "avocado", "awning", "axiom", "azalea", "azure", "babble", "bacon", "badge", "bagel", "bakery", "balance",];
    let mut part_06: Vec<&'static str> = vec!["balcony", "bamboo", "banana", "banjo", "barbecue", "barley", "barn", "basil", "basket", "baton", "bazaar", "beach", "beacon", "beagle", "beaker", "beam",];
    let mut part_07: Vec<&'static str> = vec!["bean", "bear", "beaver", "bed", "beech", "beet", "begonia", "behave", "belfry", "bell", "belt", "bench", "beret", "berry", "bicycle", "billow",];
    let mut part_08: Vec<&'static str> = vec!["bingo", "biology", "birch", "bishop", "bison", "bitter", "blanket", "blazer", "bleach", "blimp", "blossom", "blueprint", "boa", "bobcat", "bogus", "bolt",];
    let mut part_09: Vec<&'static str> = vec!["bonfire", "bongo", "bonnet", "book", "borax", "botany", "boulder", "bounce", "bowtie", "boxcar", "bramble", "bravado", "breeze", "brick", "bridge", "brisket",];
    let mut part_10: Vec<&'static str> = vec!["broccoli", "bronze", "brook", "brute", "bubble", "buckle", "budget", "buffalo", "bugle", "bulb", "bungalow", "bunk", "burlap", "bus", "butter", "buzzard",];
    let mut part_11: Vec<&'static str> = vec!["cabbage", "cactus", "cadet", "cafe", "cage", "cake", "calendar", "calico", "camel", "cameo", "camera", "canal", "candle", "canoe", "canyon", "capsule",];
    let mut part_12: Vec<&'static str> = vec!["caravan", "carbon", "cardigan", "cargo", "carnival", "carousel", "carpet", "cartoon", "cascade", "cashew", "casino", "castle", "catalog", "catfish", "cavern", "cedar",];
    let mut part_13: Vec<&'static str> = vec!["celery", "cello", "cement", "census", "century", "ceramic", "chair", "chalk", "chamber", "chaos", "chapel", "charcoal", "chess", "chimney", "chipmunk", "chorus",];
    let mut part_14: Vec<&'static str> = vec!["chrome", "cinder", "cinnamon", "cipher", "circus", "citrus", "city", "civic", "clam", "clarinet", "clay", "clinic", "clover", "cobalt", "cobweb", "cocoa",];
    let mut part_15: Vec<&'static str> = vec!["coconut", "coffee", "cogwheel", "coil", "cola", "cold", "collar", "comet", "compass", "concert", "condor", "congo", "conifer", "copper", "coral", "cork",];
    r.append(&mut part_00);
    r.append(&mut part_01);
    r.append(&mut part_02);
    r.append(&mut part_03);
    r.append(&mut part_04);
    r.append(&mut part_05);
    r.append(&mut part_06);
    r.append(&mut part_07);
    r.append(&mut part_08);
    r.append(&mut part_09);
    r.append(&mut part_10);
    r.append(&mut part_11);
    r.append(&mut part_12);
    r.append(&mut part_13);
    r.append(&mut part_14);
    r.append(&mut part_15);
    proof {
        assert(r@ =~= eff_words());
    }
    r
}

/// The two-syllable word list, as a vector.
pub fn wl_pgp_encode_two_syllable() -> (r: Vec<&'static str>)
    ensures
        r@ == pgp_two_syllable_words(),
        r@.len() == 256,
{
    let mut r: Vec<&'static str> = Vec::new();
    let mut part_00: Vec<&'static str> = vec!["aardvark", "absurd", "accrue", "acme", "adrift", "adult", "advance", "aerobic", "affix", "agenda", "aileron", "ajar", "alabama", "albatross", "alchemy", "alfalfa",];
    let mut part_01: Vec<&'static str> = vec!["algebra", "alias", "alibi", "almanac", "aloe", "alpine", "already", "altitude", "amber", "ambush", "amend", "amigo", "ammo", "amnesty", "amoeba", "ample",];
    let mut part_02: Vec<&'static str> = vec!["amulet", "anagram", "anchor", "anecdote", "angelfish", "anguish", "animal", "ankle", "annex", "anthem", "antler", "anvil", "aorta", "apache", "apex", "aplomb",];
    let mut part_03: Vec<&'static str> = vec!["apostle", "apple", "apricot", "aqua", "arbitrate", "arcade", "ardent", "arena", "argon", "arid", "armoire", "aroma", "arrow", "arsenal", "artichoke", "ascent",];
    let mut part_04: Vec<&'static str> = vec!["ashen", "asleep", "aspen", "asphalt", "aster", "asylum", "athlete", "atlas", "atom", "attic", "auburn", "auction", "audio", "august", "aunt", "avatar",];
    let mut part_05: Vec<&'static str> = vec!["avenue", "avid", "avocado", "awning", "axiom", "azalea", "azure", "babble", "bacon", "badge", "bagel", "bakery", "balance", "balcony", "bamboo", "banana",];
    let mut part_06: Vec<&'static str> = vec!["banjo", "barbecue", "barley", "barn", "basil", "basket", "baton", "bazaar", "beach", "beacon", "beagle", "beaker", "beam", "bean", "bear", "beaver",];
    let mut part_07: Vec<&'static str> = vec!["bed", "beech", "beet", "begonia", "behave", "belfry", "bell", "belt", "bench", "beret", "berry", "bicycle", "billow", "bingo", "biology", "birch",];
    let mut part_08: Vec<&'static str> = vec!["bishop", "bison", "bitter", "blanket", "blazer", "bleach", "blimp", "blossom", "blueprint", "boa", "bobcat", "bogus", "bolt", "bonfire", "bongo", "bonnet",];
    let mut part_09: Vec<&'static str> = vec!["book", "borax", "botany", "boulder", "bounce", "bowtie", "boxcar", "bramble", "bravado", "breeze", "brick", "bridge", "brisket", "broccoli", "bronze", "brook",];
    let mut part_10: Vec<&'static str> = vec!["brute", "bubble", "buckle", "budget", "buffalo", "bugle", "bulb", "bungalow", "bunk", "burlap", "bus", "butter", "buzzard", "cabbage", "cactus", "cadet",];
    let mut part_11: Vec<&'static str> = vec!["cafe", "cage", "cake", "calendar", "calico", "camel", "cameo", "camera", "canal", "candle", "canoe", "canyon", "capsule", "caravan", "carbon", "cardigan",];
    let mut part_12: Vec<&'static str> = vec!["cargo", "carnival", "carousel", "carpet", "cartoon", "cascade", "cashew", "casino", "castle", "catalog", "catfish", "cavern", "cedar", "celery", "cello", "cement",];
    let mut part_13: Vec<&'static str> = vec!["census", "century", "ceramic", "chair", "chalk", "chamber", "chaos", "chapel", "charcoal", "chess", "chimney", "chipmunk", "chorus", "chrome", "cinder", "cinnamon",];
    let mut part_14: Vec<&'static str> = vec!["cipher", "circus", "citrus", "city", "civic", "clam", "clarinet", "clay", "clinic", "clover", "cobalt", "cobweb", "cocoa", "coconut", "coffee", "cogwheel",];
    let mut part_15: Vec<&'static str> = vec!["coil", "cola", "cold", "collar", "comet", "compass", "concert", "condor", "congo", "conifer", "copper", "coral", "cork", "corn", "cosmos", "cotton",];
    r.append(&mut part_00);
    r.append(&mut part_01);
    r.append(&mut part_02);
    r.append(&mut part_03);
    r.append(&mut part_04);
    r.append(&mut part_05);
    r.append(&mut part_06);
    r.append(&mut part_07);
    r.append(&mut part_08);
    r.append(&mut part_09);
    r.append(&mut part_10);
    r.append(&mut part_11);
    r.append(&mut part_12);
    r.append(&mut part_13);
    r.append(&mut part_14);
    r.append(&mut part_15);
    proof {
        assert(r@ =~= pgp_two_syllable_words());
    }
    r
}

/// The three-syllable word list, as a vector.
pub fn wl_pgp_encode_three_syllable() -> (r: Vec<&'static str>)
    ensures
        r@ == pgp_three_syllable_words(),
        r@.len() == 256,
{
    let mut r: Vec<&'static str> = Vec::new();
    let mut part_00: Vec<&'static str> = vec!["adroitness", "adviser", "aftermath", "aggregate", "alkali", "amulet", "anagram", "anchor", "anecdote", "angelfish", "anguish", "animal", "ankle", "annex", "anthem", "antler",];
    let mut part_01: Vec<&'static str> = vec!["anvil", "aorta", "apache", "apex", "aplomb", "applicant", "Apollo", "apostle", "apple", "apricot", "aqua", "arbitrate", "arcade", "ardent", "arena", "argon",];
    let mut part_02: Vec<&'static str> = vec!["arid", "armoire", "aroma", "arrow", "arsenal", "artichoke", "ascent", "ashen", "asleep", "aspen", "asphalt", "aster", "asylum", "athlete", "atlas", "atom",];
    let mut part_03: Vec<&'static str> = vec!["attic", "auburn", "auction", "audio", "august", "aunt", "avatar", "avenue", "avid", "avocado", "awning", "axiom", "azalea", "azure", "babble", "bacon",];
    let mut part_04: Vec<&'static str> = vec!["badge", "bagel", "bakery", "balance", "balcony", "bamboo", "banana", "banjo", "barbecue", "barley", "barn", "basil", "basket", "baton", "bazaar", "beach",];
    let mut part_05: Vec<&'static str> = vec!["beacon", "beagle", "beaker", "beam", "bean", "bear", "beaver", "bed", "beech", "beet", "begonia", "behave", "belfry", "bell", "belt", "bench",];
    let mut part_06: Vec<&'static str> = vec!["beret", "berry", "bicycle", "billow", "bingo", "biology", "birch", "bishop", "bison", "bitter", "blanket", "blazer", "bleach", "blimp", "blossom", "blueprint",];
    let mut part_07: Vec<&'static str> = vec!["boa", "bobcat", "bogus", "bolt", "bonfire", "bongo", "bonnet", "book", "borax", "botany", "boulder", "bounce", "bowtie", "boxcar", "bramble", "bravado",];
    let mut part_08: Vec<&'static str> = vec!["breeze", "brick", "bridge", "brisket", "broccoli", "bronze", "brook", "brute", "bubble", "buckle", "budget", "buffalo", "bugle", "bulb", "bungalow", "bunk",];
    let mut part_09: Vec<&'static str> = vec!["burlap", "bus", "butter", "buzzard", "cabbage", "cactus", "cadet", "cafe", "cage", "cake", "calendar", "calico", "camel", "cameo", "camera", "canal",];
    let mut part_10: Vec<&'static str> = vec!["candle", "canoe", "canyon", "capsule", "caravan", "carbon", "cardigan", "cargo", "carnival", "carousel", "carpet", "cartoon", "cascade", "cashew", "casino", "castle",];
    let mut part_11: Vec<&'static str> = vec!["catalog", "catfish", "cavern", "cedar", "celery", "cello", "cement", "census", "century", "ceramic", "chair", "chalk", "chamber", "chaos", "chapel", "charcoal",];
    let mut part_12: Vec<&'static str> = vec!["chess", "chimney", "chipmunk", "chorus", "chrome", "cinder", "cinnamon", "cipher", "circus", "citrus", "city", "civic", "clam", "clarinet", "clay", "clinic",];
    let mut part_13: Vec<&'static str> = vec!["clover", "cobalt", "cobweb", "cocoa", "coconut", "coffee", "cogwheel", "coil", "cola", "cold", "collar", "comet", "compass", "concert", "condor", "congo",];
    let mut part_14: Vec<&'static str> = vec!["conifer", "copper", "coral", "cork", "corn", "cosmos", "cotton", "cougar", "cove", "coyote", "crater", "crayon", "credit", "cricket", "crimson", "crocus",];
    let mut part_15: Vec<&'static str> = vec!["crouton", "crystal", "cube", "cuckoo", "cuff", "culvert", "cupcake", "curfew", "curtain", "cushion", "cyclone", "cymbal", "cypress", "daffodil", "dagger", "dairy",];
    r.append(&mut part_00);
    r.append(&mut part_01);
    r.append(&mut part_02);
    r.append(&mut part_03);
    r.append(&mut part_04);
    r.append(&mut part_05);
    r.append(&mut part_06);
    r.append(&mut part_07);
    r.append(&mut part_08);
    r.append(&mut part_09);
    r.append(&mut part_10);
    r.append(&mut part_11);
    r.append(&mut part_12);
    r.append(&mut part_13);
    r.append(&mut part_14);
    r.append(&mut part_15);
    proof {
        assert(r@ =~= pgp_three_syllable_words());
    }
    r
}

} // verus!
