//! Armor pieces, charms and their identifiers.

use crate::data::skill::MAX_SLOT_LEVEL;
use crate::slots::copy_slots;
use crate::str_map::StrMap;
use crate::str_map::{distinct_keys, entries_map, lemma_entry_in_map, lemma_map_take};
use crate::text::{
    chars_of, decimal, find_char, has_prefix, is_digit, lemma_decimal_round_trip, number_of,
    parse_number, push_decimal,
};
use vstd::prelude::*;
use vstd::string::*;

verus! {

/// What the identifier of an empty placeholder piece begins with.
pub const EMPTY_ARMOR_PREFIX: &'static str = "__empty";

/// What the identifier of a socket-only piece begins with.
pub const SLOT_ARMOR_PREFIX: &'static str = "__slot";

/// What the identifier of an augmented piece begins with.
pub const ANOMALY_ARMOR_PREFIX: &'static str = "__anomaly";

/// Where a piece is worn. The charm counts as a part of its own.
#[derive(Debug, Clone, Copy, Hash, PartialEq, Eq, Structural)]
pub enum ArmorPart {
    Helm,
    Torso,
    Arm,
    Waist,
    Feet,
    Talisman,
}

/// Who can wear a piece.
#[derive(Debug, Clone, Copy, PartialEq, Eq, Structural)]
pub enum SexType {
    All,
    Male,
    Female,
}

/// Defense and resistances of a piece. The search does not look at them.
#[derive(Debug, Clone, Copy, PartialEq, Eq, Structural)]
pub struct ArmorStat {
    pub defense: i32,
    pub fire_res: i32,
    pub water_res: i32,
    pub ice_res: i32,
    pub elec_res: i32,
    pub dragon_res: i32,
}

/// The level at which a piece grants a skill.
#[derive(Debug, Clone, Copy, PartialEq, Eq, Structural)]
pub struct ArmorSkill {
    pub level: i32,
}

/// A body piece of the catalog.
#[derive(Debug)]
pub struct BaseArmor {
    pub id: String,
    pub part: ArmorPart,
    pub sex_type: SexType,
    /// Display names by locale.
    pub names: StrMap<String>,
    pub rarity: i32,
    pub stat: ArmorStat,
    /// The skills granted, by skill identifier.
    pub skills: StrMap<ArmorSkill>,
    /// The sizes of the sockets; 0 stands for "no socket".
    pub slots: Vec<i32>,
}

/// A piece changed by augmentation: the piece it was made from, what was
/// added, and the piece that results.
#[derive(Debug)]
pub struct AnomalyArmor {
    pub original: BaseArmor,
    pub affected: BaseArmor,
    pub stat_diff: ArmorStat,
    pub slot_diffs: Vec<i32>,
    pub skill_diffs: StrMap<ArmorSkill>,
}

/// One skill of a charm.
#[derive(Debug)]
pub struct TalismanSkill {
    pub id: String,
    pub level: i32,
}

/// A charm.
#[derive(Debug)]
pub struct Talisman {
    pub id: String,
    pub skills: Vec<TalismanSkill>,
    /// The sizes of the sockets; 0 stands for "no socket".
    pub slot_sizes: Vec<i32>,
}

/// The name of a part as it stands in identifiers and files.
pub open spec fn part_name(part: ArmorPart) -> Seq<char> {
    match part {
        ArmorPart::Helm => "helm"@,
        ArmorPart::Torso => "torso"@,
        ArmorPart::Arm => "arm"@,
        ArmorPart::Waist => "waist"@,
        ArmorPart::Feet => "feet"@,
        ArmorPart::Talisman => "talisman"@,
    }
}

/// `s` lists socket sizes: each is 0 ("no socket") or a size up to
/// `MAX_SLOT_LEVEL`, and there are few enough to count them in an `i32`.
pub open spec fn is_base_slots(s: Seq<i32>) -> bool {
    &&& s.len() <= i32::MAX
    &&& forall|i: int| 0 <= i < s.len() ==> 0 <= #[trigger] s[i] <= MAX_SLOT_LEVEL
}

/// The identifier of the socket-only piece with the socket sizes `a`, `b`, `c`.
pub open spec fn slot_id_text(a: int, b: int, c: int) -> Seq<char> {
    "__slot"@ + seq!['_'] + decimal(a) + seq!['-'] + decimal(b) + seq!['-'] + decimal(c)
}

/// The statistics of a piece without any.
pub fn zero_stat() -> (s: ArmorStat)
    ensures
        s == (ArmorStat {
            defense: 0,
            fire_res: 0,
            water_res: 0,
            ice_res: 0,
            elec_res: 0,
            dragon_res: 0,
        }),
{
    ArmorStat { defense: 0, fire_res: 0, water_res: 0, ice_res: 0, elec_res: 0, dragon_res: 0 }
}

impl ArmorPart {
    /// The name of the part as it stands in identifiers and files.
    pub fn as_str(&self) -> (s: &'static str)
        ensures
            s@ == part_name(*self),
    {
        match self {
            ArmorPart::Helm => "helm",
            ArmorPart::Torso => "torso",
            ArmorPart::Arm => "arm",
            ArmorPart::Waist => "waist",
            ArmorPart::Feet => "feet",
            ArmorPart::Talisman => "talisman",
        }
    }

    /// The five body parts, in the order in which a build lists them.
    pub fn get_all() -> (parts: Vec<ArmorPart>)
        ensures
            parts@ == seq![
                ArmorPart::Helm,
                ArmorPart::Torso,
                ArmorPart::Arm,
                ArmorPart::Waist,
                ArmorPart::Feet,
            ],
    {
        let mut parts: Vec<ArmorPart> = Vec::new();
        parts.push(ArmorPart::Helm);
        parts.push(ArmorPart::Torso);
        parts.push(ArmorPart::Arm);
        parts.push(ArmorPart::Waist);
        parts.push(ArmorPart::Feet);
        assert(parts@ =~= seq![
            ArmorPart::Helm,
            ArmorPart::Torso,
            ArmorPart::Arm,
            ArmorPart::Waist,
            ArmorPart::Feet,
        ]);
        parts
    }

    /// The position of the part in a build: body parts first, the charm last.
    pub open spec fn spec_index(self) -> int {
        match self {
            ArmorPart::Helm => 0,
            ArmorPart::Torso => 1,
            ArmorPart::Arm => 2,
            ArmorPart::Waist => 3,
            ArmorPart::Feet => 4,
            ArmorPart::Talisman => 5,
        }
    }

    /// The position of the part in a build: body parts first, the charm last.
    pub fn index(&self) -> (i: usize)
        ensures
            i == self.spec_index(),
            i < 6,
    {
        match self {
            ArmorPart::Helm => 0,
            ArmorPart::Torso => 1,
            ArmorPart::Arm => 2,
            ArmorPart::Waist => 3,
            ArmorPart::Feet => 4,
            ArmorPart::Talisman => 5,
        }
    }
}

impl BaseArmor {
    /// The placeholder for "any piece of this part, or none": no skills, no
    /// sockets, and the identifier `__empty_<part>`.
    pub fn create_empty(part: ArmorPart) -> (armor: BaseArmor)
        ensures
            armor.id@ == "__empty"@ + seq!['_'] + part_name(part),
            armor.part == part,
            armor.sex_type == SexType::All,
            armor.rarity == 10,
            armor.names.entries().len() == 0,
            armor.skills.entries().len() == 0,
            armor.slots@ == seq![0i32, 0i32, 0i32],
            armor.stat == zero_stat_spec(),
    {
        proof {
            reveal_strlit("_");
        }
        let mut id = String::from_str(EMPTY_ARMOR_PREFIX);
        id.append("_");
        id.append(part.as_str());
        assert("_"@ =~= seq!['_']);
        let mut slots: Vec<i32> = Vec::new();
        slots.push(0);
        slots.push(0);
        slots.push(0);
        assert(slots@ =~= seq![0i32, 0i32, 0i32]);
        BaseArmor {
            id,
            names: StrMap::new(),
            part,
            rarity: 10,
            sex_type: SexType::All,
            skills: StrMap::new(),
            slots,
            stat: zero_stat(),
        }
    }

    /// The identifier of the piece.
    pub fn id(&self) -> (id: &String)
        ensures
            id@ == self.id@,
    {
        &self.id
    }

    /// The identifier of the socket-only piece with the first three socket
    /// sizes of `slots`: `__slot_<a>-<b>-<c>`.
    pub fn get_slot_armor_id(slots: &Vec<i32>) -> (id: String)
        requires
            slots@.len() >= 3,
        ensures
            id@ == slot_id_text(slots@[0] as int, slots@[1] as int, slots@[2] as int),
    {
        proof {
            reveal_strlit("_");
            reveal_strlit("-");
        }
        let mut id = String::from_str(SLOT_ARMOR_PREFIX);
        id.append("_");
        push_decimal(&mut id, slots[0]);
        id.append("-");
        push_decimal(&mut id, slots[1]);
        id.append("-");
        push_decimal(&mut id, slots[2]);
        assert("_"@ =~= seq!['_']);
        assert("-"@ =~= seq!['-']);
        id
    }

    /// Whether `armor_id` names a socket-only piece.
    pub fn is_slot_armor(armor_id: &String) -> (b: bool)
        ensures
            b == "__slot"@.is_prefix_of(armor_id@),
    {
        has_prefix(armor_id, SLOT_ARMOR_PREFIX)
    }

    /// Whether `armor_id` names an augmented piece.
    pub fn is_anomaly_armor(armor_id: &String) -> (b: bool)
        ensures
            b == "__anomaly"@.is_prefix_of(armor_id@),
    {
        has_prefix(armor_id, ANOMALY_ARMOR_PREFIX)
    }

    /// Whether `armor_id` names an empty placeholder.
    pub fn is_empty_armor(armor_id: &String) -> (b: bool)
        ensures
            b == "__empty"@.is_prefix_of(armor_id@),
    {
        has_prefix(armor_id, EMPTY_ARMOR_PREFIX)
    }

    /// The socket sizes are sizes, few enough to count, and no skill has a
    /// negative level.
    pub open spec fn valid(&self) -> bool {
        &&& is_base_slots(self.slots@)
        &&& forall|i: int|
            0 <= i < self.skills.entries().len() ==> 0 <= (#[trigger] self.skills.entries()[i]).1.level
    }

    /// Whether the socket sizes are sizes, few enough to count, and no skill
    /// has a negative level.
    pub fn is_valid(&self) -> (b: bool)
        ensures
            b == self.valid(),
    {
        if !base_slots_ok(&self.slots) {
            return false;
        }
        let n = self.skills.len();
        let mut i: usize = 0;
        while i < n
            invariant
                i <= n,
                n == self.skills.entries().len(),
                forall|j: int|
                    0 <= j < i ==> 0 <= (#[trigger] self.skills.entries()[j]).1.level,
            decreases n - i,
        {
            if self.skills.value_at(i).level < 0 {
                return false;
            }
            i += 1;
        }
        true
    }

    /// `self` and `other` are the same piece, field by field.
    pub open spec fn same(&self, other: &BaseArmor) -> bool {
        &&& self.id@ == other.id@
        &&& self.part == other.part
        &&& self.sex_type == other.sex_type
        &&& self.names.entries() == other.names.entries()
        &&& self.rarity == other.rarity
        &&& self.stat == other.stat
        &&& self.skills.entries() == other.skills.entries()
        &&& self.slots@ == other.slots@
    }
}

/// The statistics of a piece without any, as a specification.
pub open spec fn zero_stat_spec() -> ArmorStat {
    ArmorStat { defense: 0, fire_res: 0, water_res: 0, ice_res: 0, elec_res: 0, dragon_res: 0 }
}

impl Clone for BaseArmor {
    fn clone(&self) -> (r: Self)
        ensures
            r.same(self),
    {
        BaseArmor {
            id: self.id.clone(),
            part: self.part,
            sex_type: self.sex_type,
            names: self.names.duplicate_text(),
            rarity: self.rarity,
            stat: self.stat,
            skills: self.skills.duplicate(),
            slots: copy_slots(&self.slots),
        }
    }
}

/// Whether `slots` lists socket sizes, few enough to count.
pub fn base_slots_ok(slots: &Vec<i32>) -> (b: bool)
    ensures
        b == is_base_slots(slots@),
{
    if slots.len() > 0x7fff_ffff {
        return false;
    }
    let mut i: usize = 0;
    while i < slots.len()
        invariant
            i <= slots@.len(),
            forall|j: int| 0 <= j < i ==> 0 <= #[trigger] slots@[j] <= MAX_SLOT_LEVEL,
        decreases slots.len() - i,
    {
        if slots[i] < 0 || slots[i] > 4 {
            return false;
        }
        i += 1;
    }
    true
}

/// The text of a socket-only identifier with the three number texts `a`,
/// `b` and `c`.
pub open spec fn slot_id_of(a: Seq<char>, b: Seq<char>, c: Seq<char>) -> Seq<char> {
    "__slot"@ + seq!['_'] + a + seq!['-'] + b + seq!['-'] + c
}

/// `s` is a socket-only identifier whose three numbers are written `a`, `b`
/// and `c`.
pub open spec fn is_slot_id(s: Seq<char>, a: Seq<char>, b: Seq<char>, c: Seq<char>) -> bool {
    &&& s == slot_id_of(a, b, c)
    &&& number_of(a) is Some
    &&& number_of(b) is Some
    &&& number_of(c) is Some
}

/// The three numbers written `a`, `b` and `c`.
pub open spec fn slot_numbers(a: Seq<char>, b: Seq<char>, c: Seq<char>) -> Seq<i32> {
    seq![number_of(a)->0, number_of(b)->0, number_of(c)->0]
}

/// The length of a text as an integer.
pub open spec fn la(t: Seq<char>) -> int {
    t.len() as int
}

/// Where the parts of a socket-only identifier stand in it.
pub proof fn lemma_slot_id_parts(s: Seq<char>, a: Seq<char>, b: Seq<char>, c: Seq<char>)
    requires
        s == slot_id_of(a, b, c),
    ensures
        s.len() == 9 + la(a) + la(b) + la(c),
        s.subrange(0, 7) == "__slot"@ + seq!['_'],
        s.subrange(7, 7 + la(a)) == a,
        s[7 + la(a)] == '-',
        s.subrange(8 + la(a), 8 + la(a) + la(b)) == b,
        s[8 + la(a) + la(b)] == '-',
        s.subrange(9 + la(a) + la(b), s.len() as int) == c,
{
    reveal_strlit("__slot");
    assert("__slot"@.len() == 6);
    assert(s.subrange(0, 7) =~= "__slot"@ + seq!['_']);
    assert(s.subrange(7, 7 + la(a)) =~= a);
    assert(s.subrange(8 + la(a), 8 + la(a) + la(b)) =~= b);
    assert(s.subrange(9 + la(a) + la(b), s.len() as int) =~= c);
}

/// The identifier made from three numbers reads back as these numbers.
pub proof fn lemma_slot_id_round_trip(x: int, y: int, z: int)
    requires
        0 <= x <= i32::MAX,
        0 <= y <= i32::MAX,
        0 <= z <= i32::MAX,
    ensures
        is_slot_id(slot_id_text(x, y, z), decimal(x), decimal(y), decimal(z)),
        slot_numbers(decimal(x), decimal(y), decimal(z)) == seq![x as i32, y as i32, z as i32],
{
    lemma_decimal_round_trip(x as nat);
    lemma_decimal_round_trip(y as nat);
    lemma_decimal_round_trip(z as nat);
}

impl BaseArmor {
    /// Reads the three socket sizes out of a socket-only identifier
    /// `__slot_<a>-<b>-<c>`. Any other text gives no sizes.
    pub fn parse_slot_armor_id(slot_armor_id: &String) -> (ret: Vec<i32>)
        ensures
            forall|a: Seq<char>, b: Seq<char>, c: Seq<char>| #[trigger]
                is_slot_id(slot_armor_id@, a, b, c) ==> ret@ == slot_numbers(a, b, c),
            ret@.len() == 0 || exists|a: Seq<char>, b: Seq<char>, c: Seq<char>|
                is_slot_id(slot_armor_id@, a, b, c),
    {
        let ghost s = slot_armor_id@;
        let chars = chars_of(slot_armor_id);
        let n = chars.len();
        let mut ret: Vec<i32> = Vec::new();
        proof {
            reveal_strlit("__slot_");
            reveal_strlit("__slot");
            assert("__slot_"@ =~= "__slot"@ + seq!['_']);
        }
        if !has_prefix(slot_armor_id, "__slot_") {
            proof {
                assert forall|a: Seq<char>, b: Seq<char>, c: Seq<char>| #[trigger]
                    is_slot_id(s, a, b, c) implies ret@ == slot_numbers(a, b, c) by {
                    lemma_slot_id_parts(s, a, b, c);
                    assert("__slot_"@.is_prefix_of(s));
                }
            }
            return ret;
        }
        assert(n >= 7);
        let d1 = find_char(&chars, 7, '-');
        if d1 >= n {
            proof {
                assert forall|a: Seq<char>, b: Seq<char>, c: Seq<char>| #[trigger]
                    is_slot_id(s, a, b, c) implies ret@ == slot_numbers(a, b, c) by {
                    lemma_slot_id_parts(s, a, b, c);
                    assert(chars@[7 + la(a)] != '-');
                }
            }
            return ret;
        }
        let d2 = find_char(&chars, d1 + 1, '-');
        proof {
            assert forall|a: Seq<char>, b: Seq<char>, c: Seq<char>| #[trigger]
                is_slot_id(s, a, b, c) implies d1 == 7 + la(a) && (d2 < n ==> d2 == 8 + la(a)
                + b.len() && s.subrange(7, d1 as int) == a && s.subrange(d1 + 1, d2 as int) == b
                && s.subrange(d2 + 1, n as int) == c) && d2 < n by {
                lemma_slot_id_parts(s, a, b, c);
                if d1 < 7 + la(a) {
                    assert(is_digit(a[d1 - 7]));
                    assert(s.subrange(7, 7 + la(a))[d1 - 7] == s[d1 as int]);
                }
                if d1 > 7 + la(a) {
                    assert(chars@[7 + la(a)] != '-');
                }
                if d2 < 8 + la(a) + la(b) {
                    if d2 < n {
                        assert(is_digit(b[d2 - d1 - 1]));
                        assert(s.subrange(8 + la(a), 8 + la(a) + la(b))[d2 - d1 - 1]
                            == s[d2 as int]);
                    }
                }
                if d2 > 8 + la(a) + la(b) {
                    assert(chars@[8 + la(a) + la(b)] != '-');
                }
            }
        }
        if d2 >= n {
            return ret;
        }
        let first = parse_number(&chars, 7, d1);
        let second = parse_number(&chars, d1 + 1, d2);
        let third = parse_number(&chars, d2 + 1, n);
        let ghost ta = s.subrange(7, d1 as int);
        let ghost tb = s.subrange(d1 + 1, d2 as int);
        let ghost tc = s.subrange(d2 + 1, n as int);
        match (first, second, third) {
            (Some(x), Some(y), Some(z)) => {
                ret.push(x);
                ret.push(y);
                ret.push(z);
                proof {
                    assert(ret@ =~= slot_numbers(ta, tb, tc));
                    assert(s =~= slot_id_of(ta, tb, tc));
                    assert(is_slot_id(s, ta, tb, tc));
                }
                ret
            },
            _ => ret,
        }
    }

    /// The socket-only piece of `part` that `slot_armor_id` names: no skills,
    /// and the socket sizes written in the identifier.
    pub fn get_slot_armor(part: ArmorPart, slot_armor_id: String) -> (armor: BaseArmor)
        ensures
            armor.id@ == slot_armor_id@,
            armor.part == part,
            armor.sex_type == SexType::All,
            armor.rarity == 10,
            armor.names.entries().len() == 0,
            armor.skills.entries().len() == 0,
            armor.stat == zero_stat_spec(),
            forall|a: Seq<char>, b: Seq<char>, c: Seq<char>| #[trigger]
                is_slot_id(slot_armor_id@, a, b, c) ==> armor.slots@ == slot_numbers(a, b, c),
            armor.slots@.len() == 0 || exists|a: Seq<char>, b: Seq<char>, c: Seq<char>|
                is_slot_id(slot_armor_id@, a, b, c),
    {
        let slots = BaseArmor::parse_slot_armor_id(&slot_armor_id);
        BaseArmor {
            id: slot_armor_id,
            names: StrMap::new(),
            part,
            rarity: 10,
            sex_type: SexType::All,
            skills: StrMap::new(),
            slots,
            stat: zero_stat(),
        }
    }
}

impl Talisman {
    /// The identifier of the charm.
    pub fn id(&self) -> (id: &String)
        ensures
            id@ == self.id@,
    {
        &self.id
    }

    /// The placeholder for "any charm, or none": no skills, no sockets.
    pub fn create_empty() -> (tali: Talisman)
        ensures
            tali.id@ == "__empty"@ + seq!['_'] + part_name(ArmorPart::Talisman),
            tali.skills@.len() == 0,
            tali.slot_sizes@ == seq![0i32, 0i32, 0i32],
    {
        proof {
            reveal_strlit("_");
        }
        let mut id = String::from_str(EMPTY_ARMOR_PREFIX);
        id.append("_");
        id.append(ArmorPart::Talisman.as_str());
        assert("_"@ =~= seq!['_']);
        let mut slot_sizes: Vec<i32> = Vec::new();
        slot_sizes.push(0);
        slot_sizes.push(0);
        slot_sizes.push(0);
        assert(slot_sizes@ =~= seq![0i32, 0i32, 0i32]);
        Talisman { id, skills: Vec::new(), slot_sizes }
    }

    /// The socket-only charm that `slot_tali_id` names: no skills, and the
    /// socket sizes written in the identifier.
    pub fn get_slot_talisman(slot_tali_id: String) -> (tali: Talisman)
        ensures
            tali.id@ == slot_tali_id@,
            tali.skills@.len() == 0,
            forall|a: Seq<char>, b: Seq<char>, c: Seq<char>| #[trigger]
                is_slot_id(slot_tali_id@, a, b, c) ==> tali.slot_sizes@ == slot_numbers(a, b, c),
            tali.slot_sizes@.len() == 0 || exists|a: Seq<char>, b: Seq<char>, c: Seq<char>|
                is_slot_id(slot_tali_id@, a, b, c),
    {
        let slot_sizes = BaseArmor::parse_slot_armor_id(&slot_tali_id);
        Talisman { id: slot_tali_id, skills: Vec::new(), slot_sizes }
    }

    /// The socket sizes are sizes, few enough to count, and no skill has a
    /// negative level.
    pub open spec fn valid(&self) -> bool {
        &&& is_base_slots(self.slot_sizes@)
        &&& forall|i: int| 0 <= i < self.skills@.len() ==> 0 <= (#[trigger] self.skills@[i]).level
    }

    /// Whether the socket sizes are sizes, few enough to count, and no skill
    /// has a negative level.
    pub fn is_valid(&self) -> (b: bool)
        ensures
            b == self.valid(),
    {
        if !base_slots_ok(&self.slot_sizes) {
            return false;
        }
        let mut i: usize = 0;
        while i < self.skills.len()
            invariant
                i <= self.skills@.len(),
                forall|j: int| 0 <= j < i ==> 0 <= (#[trigger] self.skills@[j]).level,
            decreases self.skills.len() - i,
        {
            if self.skills[i].level < 0 {
                return false;
            }
            i += 1;
        }
        true
    }
}

impl Clone for Talisman {
    fn clone(&self) -> (r: Self)
        ensures
            r.id@ == self.id@,
            r.slot_sizes@ == self.slot_sizes@,
            r.skills@.len() == self.skills@.len(),
            forall|i: int|
                0 <= i < r.skills@.len() ==> (#[trigger] r.skills@[i]).id@ == self.skills@[i].id@
                    && r.skills@[i].level == self.skills@[i].level,
    {
        let mut skills: Vec<TalismanSkill> = Vec::new();
        let mut i: usize = 0;
        while i < self.skills.len()
            invariant
                i <= self.skills@.len(),
                skills@.len() == i,
                forall|j: int|
                    0 <= j < i ==> (#[trigger] skills@[j]).id@ == self.skills@[j].id@
                        && skills@[j].level == self.skills@[j].level,
            decreases self.skills.len() - i,
        {
            skills.push(TalismanSkill { id: self.skills[i].id.clone(), level: self.skills[i].level });
            i += 1;
        }
        Talisman { id: self.id.clone(), skills, slot_sizes: copy_slots(&self.slot_sizes) }
    }
}

/// The sum of two numbers can be written down.
pub open spec fn sum_ok(a: i32, b: i32) -> bool {
    i32::MIN <= a + b <= i32::MAX
}

/// The statistics `a` raised by `b`, field by field.
pub open spec fn stat_sum(a: ArmorStat, b: ArmorStat) -> ArmorStat {
    ArmorStat {
        defense: (a.defense + b.defense) as i32,
        fire_res: (a.fire_res + b.fire_res) as i32,
        water_res: (a.water_res + b.water_res) as i32,
        ice_res: (a.ice_res + b.ice_res) as i32,
        elec_res: (a.elec_res + b.elec_res) as i32,
        dragon_res: (a.dragon_res + b.dragon_res) as i32,
    }
}

/// The sums of the statistics `a` and `b` can be written down.
pub open spec fn stat_sum_ok(a: ArmorStat, b: ArmorStat) -> bool {
    &&& sum_ok(a.defense, b.defense)
    &&& sum_ok(a.fire_res, b.fire_res)
    &&& sum_ok(a.water_res, b.water_res)
    &&& sum_ok(a.ice_res, b.ice_res)
    &&& sum_ok(a.elec_res, b.elec_res)
    &&& sum_ok(a.dragon_res, b.dragon_res)
}

/// The skills `orig` with the levels of `diff` added: a skill of both has
/// the sum of its levels, a skill of one has the level it has there.
pub open spec fn merged_skills(
    orig: Map<Seq<char>, ArmorSkill>,
    diff: Map<Seq<char>, ArmorSkill>,
) -> Map<Seq<char>, ArmorSkill> {
    Map::new(
        |k: Seq<char>| orig.contains_key(k) || diff.contains_key(k),
        |k: Seq<char>|
            if diff.contains_key(k) {
                if orig.contains_key(k) {
                    ArmorSkill { level: (orig[k].level + diff[k].level) as i32 }
                } else {
                    diff[k]
                }
            } else {
                orig[k]
            },
    )
}

/// The sums of the levels of the skills of both maps can be written down.
pub open spec fn skills_sum_ok(
    orig: Map<Seq<char>, ArmorSkill>,
    diff: Map<Seq<char>, ArmorSkill>,
) -> bool {
    forall|k: Seq<char>|
        orig.contains_key(k) && #[trigger] diff.contains_key(k) ==> sum_ok(
            orig[k].level,
            diff[k].level,
        )
}

/// Socket size `i` of a piece with the sizes `orig` after `diff` was added:
/// the sum where both have a size `i`, else the one that either has.
pub open spec fn merged_slot(orig: Seq<i32>, diff: Seq<i32>, i: int) -> int {
    (if i < orig.len() {
        orig[i] as int
    } else {
        0
    }) + (if i < diff.len() {
        diff[i] as int
    } else {
        0
    })
}

/// The sums of the socket sizes that both lists have can be written down.
pub open spec fn slots_sum_ok(orig: Seq<i32>, diff: Seq<i32>) -> bool {
    forall|i: int| 0 <= i < orig.len() && i < diff.len() ==> sum_ok(#[trigger] orig[i], diff[i])
}

/// Whether the sum of two numbers can be written down.
fn sum_fits(a: i32, b: i32) -> (r: bool)
    ensures
        r == sum_ok(a, b),
{
    let sum = a as i64 + b as i64;
    -0x8000_0000 <= sum && sum <= 0x7fff_ffff
}

impl AnomalyArmor {
    /// Whether the piece `original` can be augmented by the three
    /// differences: whether every sum of two statistics, of two socket
    /// sizes and of two levels of a skill can be written down.
    pub fn can_augment(
        original: &BaseArmor,
        stat_diff: &ArmorStat,
        slot_diffs: &Vec<i32>,
        skill_diffs: &StrMap<ArmorSkill>,
    ) -> (b: bool)
        ensures
            b == (stat_sum_ok(original.stat, *stat_diff) && slots_sum_ok(
                original.slots@,
                slot_diffs@,
            ) && skills_sum_ok(original.skills@, skill_diffs@)),
    {
        let stats = sum_fits(original.stat.defense, stat_diff.defense) && sum_fits(
            original.stat.fire_res,
            stat_diff.fire_res,
        ) && sum_fits(original.stat.water_res, stat_diff.water_res) && sum_fits(
            original.stat.ice_res,
            stat_diff.ice_res,
        ) && sum_fits(original.stat.elec_res, stat_diff.elec_res) && sum_fits(
            original.stat.dragon_res,
            stat_diff.dragon_res,
        );
        if !stats {
            return false;
        }
        let mut i: usize = 0;
        while i < original.slots.len() && i < slot_diffs.len()
            invariant
                forall|j: int| 0 <= j < i ==> sum_ok(#[trigger] original.slots@[j], slot_diffs@[j]),
            decreases original.slots.len() - i,
        {
            if !sum_fits(original.slots[i], slot_diffs[i]) {
                return false;
            }
            i += 1;
        }
        let ghost diffs = skill_diffs.entries();
        let n = skill_diffs.len();
        let mut k: usize = 0;
        while k < n
            invariant
                k <= n,
                n == diffs.len(),
                diffs == skill_diffs.entries(),
                skill_diffs.wf(),
                forall|j: int|
                    0 <= j < k && original.skills@.contains_key((#[trigger] diffs[j]).0) ==> sum_ok(
                        original.skills@[diffs[j].0].level,
                        diffs[j].1.level,
                    ),
            decreases n - k,
        {
            let id = skill_diffs.key_at(k);
            let level = skill_diffs.value_at(k).level;
            proof {
                lemma_entry_in_map(diffs, k as int);
            }
            match original.skills.get(id) {
                Some(skill) => {
                    if !sum_fits(skill.level, level) {
                        assert(!sum_ok(original.skills@[diffs[k as int].0].level, skill_diffs@[diffs[k as int].0].level));
                        return false;
                    }
                },
                None => {},
            }
            k += 1;
        }
        proof {
            assert forall|id: Seq<char>|
                original.skills@.contains_key(id) && #[trigger] skill_diffs@.contains_key(id) implies sum_ok(
                original.skills@[id].level,
                skill_diffs@[id].level,
            ) by {
                let j = crate::str_map::key_index(diffs, id);
                lemma_entry_in_map(diffs, j);
            }
        }
        true
    }

    /// The piece `original` augmented: the statistics, socket sizes and
    /// skill levels of the three differences are added to it, and the
    /// result is kept beside it as the affected piece.
    pub fn new(
        original: BaseArmor,
        stat_diff: ArmorStat,
        slot_diffs: Vec<i32>,
        skill_diffs: StrMap<ArmorSkill>,
    ) -> (r: AnomalyArmor)
        requires
            stat_sum_ok(original.stat, stat_diff),
            slots_sum_ok(original.slots@, slot_diffs@),
            skills_sum_ok(original.skills@, skill_diffs@),
        ensures
            r.original == original,
            r.stat_diff == stat_diff,
            r.slot_diffs == slot_diffs,
            r.skill_diffs == skill_diffs,
            r.affected.id@ == original.id@,
            r.affected.part == original.part,
            r.affected.sex_type == original.sex_type,
            r.affected.rarity == original.rarity,
            r.affected.names.entries() == original.names.entries(),
            r.affected.stat == stat_sum(original.stat, stat_diff),
            r.affected.skills@ == merged_skills(original.skills@, skill_diffs@),
            r.affected.slots@.len() == if original.slots@.len() >= slot_diffs@.len() {
                original.slots@.len()
            } else {
                slot_diffs@.len()
            },
            forall|i: int|
                0 <= i < r.affected.slots@.len() ==> #[trigger] r.affected.slots@[i] == merged_slot(
                    original.slots@,
                    slot_diffs@,
                    i,
                ),
    {
        let mut affected = original.clone();
        affected.stat.defense = affected.stat.defense + stat_diff.defense;
        affected.stat.fire_res = affected.stat.fire_res + stat_diff.fire_res;
        affected.stat.water_res = affected.stat.water_res + stat_diff.water_res;
        affected.stat.ice_res = affected.stat.ice_res + stat_diff.ice_res;
        affected.stat.elec_res = affected.stat.elec_res + stat_diff.elec_res;
        affected.stat.dragon_res = affected.stat.dragon_res + stat_diff.dragon_res;
        let ghost diffs = skill_diffs.entries();
        let ghost orig = original.skills@;
        let mut skills = original.skills.duplicate();
        let n = skill_diffs.len();
        let mut i: usize = 0;
        assert(diffs.subrange(0, 0) =~= Seq::<(Seq<char>, ArmorSkill)>::empty());
        assert(skills@ =~= merged_skills(orig, entries_map(diffs.subrange(0, 0))));
        while i < n
            invariant
                i <= n,
                n == diffs.len(),
                diffs == skill_diffs.entries(),
                distinct_keys(diffs),
                orig == original.skills@,
                skills_sum_ok(orig, entries_map(diffs)),
                skills@ == merged_skills(orig, entries_map(diffs.subrange(0, i as int))),
            decreases n - i,
        {
            let id = skill_diffs.key_at(i);
            let diff_level = skill_diffs.value_at(i).level;
            let ghost seen = entries_map(diffs.subrange(0, i as int));
            let ghost next = entries_map(diffs.subrange(0, i + 1));
            proof {
                lemma_map_take(diffs, i as int);
                lemma_entry_in_map(diffs, i as int);
                assert(!seen.contains_key(id@));
                assert(entries_map(diffs).contains_key(id@));
            }
            let new_value = match skills.get(id) {
                Some(old_value) => {
                    assert(orig.contains_key(id@) && orig[id@] == *old_value);
                    ArmorSkill { level: old_value.level + diff_level }
                },
                None => ArmorSkill { level: diff_level },
            };
            skills.insert(id.clone(), new_value);
            assert(skills@ =~= merged_skills(orig, next));
            i += 1;
        }
        assert(diffs.subrange(0, n as int) =~= diffs);
        affected.skills = skills;
        let ghost slots0 = original.slots@;
        let mut slots = copy_slots(&original.slots);
        let mut index: usize = 0;
        while index < slot_diffs.len()
            invariant
                index <= slot_diffs@.len(),
                slots0 == original.slots@,
                slots_sum_ok(slots0, slot_diffs@),
                slots@.len() == if slots0.len() >= index {
                    slots0.len()
                } else {
                    index as nat
                },
                forall|k: int|
                    0 <= k < slots@.len() ==> #[trigger] slots@[k] == if k < index {
                        merged_slot(slots0, slot_diffs@, k)
                    } else {
                        slots0[k] as int
                    },
            decreases slot_diffs.len() - index,
        {
            if index < slots.len() {
                assert(sum_ok(slots0[index as int], slot_diffs@[index as int]));
                let sum = slots[index] + slot_diffs[index];
                slots.set(index, sum);
            } else {
                slots.push(slot_diffs[index]);
            }
            index += 1;
        }
        affected.slots = slots;
        AnomalyArmor { original, affected, stat_diff, slot_diffs, skill_diffs }
    }
}

} // verus!
