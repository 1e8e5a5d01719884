//! Combat, after classic Rogue 5.4.4: the to-hit roll ([`swing`]), the
//! damage loop ([`roll_em`]), experience and level-ups ([`killed`],
//! [`check_level`]), monster spawn scaling ([`lev_add`], [`exp_add`]), and
//! the AFTER-phase daemons ([`monster_phase`], [`doctor`], [`hunger`]).
//!
//! The round order is owned here: the player acts first, then `runners`
//! (monsters chase and attack), then `doctor` (healing), then `stomach`
//! (hunger).

use vstd::prelude::*;
use vstd::string::*;
use crate::rng::{Rng, below_value, chance_value, next_state};
use crate::entity::{Player, Monster, MonsterKind, rules_of, mean_of, rules_name_of};
use crate::map::{Board, Dungeon, walkable};
use crate::text::{digits, digit_char};

pub use crate::entity::Damage;

verus! {

/// Level-up thresholds (`e_levels[]`): level N requires
/// `exp >= E_LEVELS[N-2]`; the last threshold caps the player at level 21.
pub const E_LEVELS: [i32; 20] = [
    10, 20, 40, 80, 160, 320, 640, 1300, 2600, 5200, 13000, 26000, 50000, 100000, 200000, 400000,
    800000, 2000000, 4000000, 8000000,
];

/// The highest experience level.
pub const MAX_LEVEL: u32 = 21;

/// The floor the Amulet sits on. Monsters on floors deeper than this get one
/// extra notch of toughness per floor.
pub const AMULET_LEVEL: u32 = 26;

/// The fresh player's effective armor class: ring mail. The status line
/// prints `10 - STARTING_ARMOR_AC`, so a new character shows "Arm: 4" while
/// combat resolves against 6.
pub const STARTING_ARMOR_AC: i32 = 6;

/// How far a monster can "see" the player and wake up; also the player's
/// reach down a corridor.
pub const SIGHT_RANGE: u32 = 6;

/// A wielded weapon: to-hit bonus, damage bonus, and damage string.
#[derive(Debug, Clone, Copy)]
pub struct Weapon {
    pub name: &'static str,
    pub hplus: i32,
    pub dplus: i32,
    pub damage: &'static str,
}

/// The starting mace +1,+1: 2x4 damage.
pub open spec fn starting_weapon_spec() -> Weapon {
    Weapon { name: "mace", hplus: 1, dplus: 1, damage: "2x4" }
}

/// The starting mace +1,+1: 2x4 damage.
pub fn starting_weapon() -> (w: Weapon)
    ensures
        w == starting_weapon_spec(),
{
    Weapon { name: "mace", hplus: 1, dplus: 1, damage: "2x4" }
}

/// What one attacker's full sequence did to its defender. A multi-attack
/// monster contributes one count per `/` segment that landed.
#[derive(Debug, Clone, Copy, PartialEq, Eq, Structural)]
pub struct HitResult {
    /// How many segments landed. A 0-damage hit still counts.
    pub hits: u32,
    /// Total damage dealt, after the per-hit floor of 0.
    pub damage: i32,
}

/// One attacker's parameters: level, strength, damage string, and weapon
/// bonuses. Monsters pass no bonuses and strength 10.
#[derive(Debug, Clone, Copy)]
pub struct AttackSpec {
    pub level: u32,
    pub strength: i32,
    pub damage: &'static str,
    pub hplus: i32,
    pub dplus: i32,
}

// ---------------------------------------------------------------------
// Dice
// ---------------------------------------------------------------------

/// `rnd(n)` from state `s`: uniform in `0..n`, and 0 (with no draw) for
/// `n == 0`. Returns the value and the next state.
pub open spec fn rnd_value(s: u64, n: nat) -> (nat, u64) {
    if n == 0 {
        (0, s)
    } else {
        (below_value(s, n), next_state(s))
    }
}

/// `roll(n, sides)` from state `s`: the sum of `n` dice of `sides` sides,
/// drawn in order; 0 with no draws when either is zero.
pub open spec fn roll_value(s: u64, n: nat, sides: nat) -> (int, u64)
    decreases n,
{
    if n == 0 || sides == 0 {
        (0, s)
    } else {
        let d = below_value(s, sides) + 1;
        let (rest, s2) = roll_value(next_state(s), (n - 1) as nat, sides);
        (d + rest, s2)
    }
}

/// A roll of `n` dice of `sides` sides lies in `n..=n * sides` (0 when
/// either is zero).
pub proof fn lemma_roll_bounds(s: u64, n: nat, sides: nat)
    ensures
        0 <= roll_value(s, n, sides).0 <= n * sides,
        sides > 0 ==> n <= roll_value(s, n, sides).0,
    decreases n,
{
    if n > 0 && sides > 0 {
        lemma_roll_bounds(next_state(s), (n - 1) as nat, sides);
        assert(n * sides == (n - 1) * sides + sides) by (nonlinear_arith);
    }
}

/// `rnd(n)`: uniform in `0..n`; `rnd(0)` is 0. Unlike `Rng::below`, a zero
/// range does not panic.
pub fn rnd(rng: &mut Rng, n: u32) -> (r: u32)
    ensures
        (r as nat, final(rng)@) == rnd_value(old(rng)@, n as nat),
        n > 0 ==> r < n,
{
    if n == 0 {
        0
    } else {
        rng.below(n as usize) as u32
    }
}

/// `roll(N, S)`: the sum of N dice of S sides. Zero dice or zero sides roll
/// nothing.
pub fn roll(rng: &mut Rng, number: u32, sides: u32) -> (r: i32)
    requires
        number * sides <= i32::MAX,
    ensures
        (r as int, final(rng)@) == roll_value(old(rng)@, number as nat, sides as nat),
{
    if number == 0 || sides == 0 {
        return 0;
    }
    let ghost s0 = old(rng)@;
    let mut sum: i32 = 0;
    let mut i: u32 = 0;
    while i < number
        invariant
            i <= number,
            sides > 0,
            number * sides <= i32::MAX,
            0 <= sum <= i * sides,
            sum + roll_value(rng@, (number - i) as nat, sides as nat).0 == roll_value(s0, number as nat, sides as nat).0,
            roll_value(rng@, (number - i) as nat, sides as nat).1 == roll_value(s0, number as nat, sides as nat).1,
        decreases number - i,
    {
        proof {
            assert((i + 1) * sides <= number * sides) by (nonlinear_arith)
                requires
                    i < number,
                    sides > 0,
            ;
            assert((i + 1) * sides == i * sides + sides) by (nonlinear_arith);
        }
        let d = rng.below(sides as usize) as i32 + 1;
        sum = sum + d;
        i = i + 1;
    }
    sum
}

// ---------------------------------------------------------------------
// To-hit
// ---------------------------------------------------------------------

/// The to-hit arithmetic stays inside `i32`.
pub open spec fn swing_fits(at_lvl: u32, op_arm: i32, wplus: i32) -> bool {
    &&& at_lvl <= i32::MAX
    &&& i32::MIN <= 20 - at_lvl - op_arm <= i32::MAX
    &&& 19 + wplus <= i32::MAX
}

/// Does the swing from state `s` land? A d20 in `0..19` plus the bonus must
/// reach `20 - at_lvl - op_arm`.
pub open spec fn swing_value(s: u64, at_lvl: u32, op_arm: i32, wplus: i32) -> bool {
    below_value(s, 20) + wplus >= 20 - at_lvl - op_arm
}

/// The to-hit roll: a d20 in `0..19`; hit iff `res + wplus >= 20 - at_lvl -
/// op_arm`. `at_lvl` is the attacker's level, `op_arm` the defender's armor
/// class (lower is better, can be negative), and `wplus` the to-hit bonus.
pub fn swing(rng: &mut Rng, at_lvl: u32, op_arm: i32, wplus: i32) -> (hit: bool)
    requires
        swing_fits(at_lvl, op_arm, wplus),
    ensures
        hit == swing_value(old(rng)@, at_lvl, op_arm, wplus),
        final(rng)@ == next_state(old(rng)@),
{
    let need = 20 - at_lvl as i32 - op_arm;
    let res = rnd(rng, 20) as i32;
    res + wplus >= need
}

/// The chance of a hit, in twentieths: `at_lvl + op_arm + wplus` clamped to
/// `0..=20`.
pub open spec fn hit_twentieths_value(at_lvl: u32, op_arm: i32, wplus: i32) -> int {
    let t = at_lvl + op_arm + wplus;
    if t < 0 {
        0
    } else if t > 20 {
        20
    } else {
        t
    }
}

/// The hit probability in twentieths: `P(hit) = hit_twentieths / 20`.
pub fn hit_twentieths(at_lvl: u32, op_arm: i32, wplus: i32) -> (t: u32)
    requires
        at_lvl <= i32::MAX,
        i32::MIN <= at_lvl + op_arm + wplus <= i32::MAX,
        i32::MIN <= at_lvl + op_arm <= i32::MAX,
    ensures
        t == hit_twentieths_value(at_lvl, op_arm, wplus),
{
    let total = at_lvl as i32 + op_arm + wplus;
    if total < 0 {
        0
    } else if total > 20 {
        20
    } else {
        total as u32
    }
}

/// Strength to-hit bonus `str_plus[]`.
pub open spec fn str_plus_value(strength: i32) -> int {
    if strength == 0 { -7 }
    else if strength == 1 { -6 }
    else if strength == 2 { -5 }
    else if strength == 3 { -4 }
    else if strength == 4 { -3 }
    else if strength == 5 { -2 }
    else if strength == 6 { -1 }
    else if 7 <= strength <= 16 { 0 }
    else if 17 <= strength <= 20 { 1 }
    else if 21 <= strength <= 30 { 2 }
    else if strength == 31 { 3 }
    else { 0 }
}

/// Strength damage bonus `add_dam[]`.
pub open spec fn add_dam_value(strength: i32) -> int {
    if strength == 0 { -7 }
    else if strength == 1 { -6 }
    else if strength == 2 { -5 }
    else if strength == 3 { -4 }
    else if strength == 4 { -3 }
    else if strength == 5 { -2 }
    else if strength == 6 { -1 }
    else if 7 <= strength <= 15 { 0 }
    else if 16 <= strength <= 17 { 1 }
    else if strength == 18 { 2 }
    else if 19 <= strength <= 20 { 3 }
    else if strength == 21 { 4 }
    else if 22 <= strength <= 30 { 5 }
    else if strength == 31 { 6 }
    else { 0 }
}

/// Strength to-hit bonus `str_plus[]`. Only strengths 3..=31 are reachable;
/// monsters use 10 and get 0.
pub fn str_plus(strength: i32) -> (b: i32)
    ensures
        b == str_plus_value(strength),
        -7 <= b <= 3,
{
    match strength {
        0 => -7,
        1 => -6,
        2 => -5,
        3 => -4,
        4 => -3,
        5 => -2,
        6 => -1,
        7..=16 => 0,
        17..=20 => 1,
        21..=30 => 2,
        31 => 3,
        _ => 0,
    }
}

/// Strength damage bonus `add_dam[]`.
pub fn add_dam(strength: i32) -> (b: i32)
    ensures
        b == add_dam_value(strength),
        -7 <= b <= 6,
{
    match strength {
        0 => -7,
        1 => -6,
        2 => -5,
        3 => -4,
        4 => -3,
        5 => -2,
        6 => -1,
        7..=15 => 0,
        16..=17 => 1,
        18 => 2,
        19..=20 => 3,
        21 => 4,
        22..=30 => 5,
        31 => 6,
        _ => 0,
    }
}


// ---------------------------------------------------------------------
// Damage strings
// ---------------------------------------------------------------------

pub open spec fn is_digit(c: char) -> bool {
    '0' <= c <= '9'
}

/// `atoi` from index `i` of `s` with `acc` read so far: the leading run of
/// digits, or `acc` if there is none.
pub open spec fn atoi_from(s: Seq<char>, i: int, acc: nat) -> nat
    decreases s.len() - i,
{
    if 0 <= i < s.len() && is_digit(s[i]) {
        atoi_from(s, i + 1, acc * 10 + (s[i] as nat - '0' as nat) as nat)
    } else {
        acc
    }
}

/// The first index at or after `i` where `s` holds `c`.
pub open spec fn find_from(s: Seq<char>, c: char, i: int) -> Option<int>
    decreases s.len() - i,
{
    if i < 0 || i >= s.len() {
        None
    } else if s[i] == c {
        Some(i)
    } else {
        find_from(s, c, i + 1)
    }
}

/// The attack segments of the damage string `s` from index `start`: `'x'`
/// separates dice from sides (`"2x4"` is 2d4), `'/'` separates independent
/// attacks. A number without leading digits reads as 0 (atoi semantics).
pub open spec fn parse_from(s: Seq<char>, start: int) -> Seq<Damage>
    decreases s.len() - start,
{
    if start < 0 || start >= s.len() {
        Seq::empty()
    } else {
        let dice = atoi_from(s, start, 0);
        match find_from(s, 'x', start) {
            None => Seq::empty(),
            Some(xi) => {
                let d = Damage { dice: dice as u32, sides: atoi_from(s, xi + 1, 0) as u32 };
                match find_from(s, '/', xi + 1) {
                    None => seq![d],
                    Some(si) => if start < si + 1 <= s.len() { seq![d] + parse_from(s, si + 1) } else { seq![d] },
                }
            },
        }
    }
}

/// The numbers read while parsing `s` from `start` fit in `u32`.
pub open spec fn parse_fits(s: Seq<char>, start: int) -> bool
    decreases s.len() - start,
{
    if start < 0 || start >= s.len() {
        true
    } else {
        &&& atoi_from(s, start, 0) <= u32::MAX
        &&& match find_from(s, 'x', start) {
            None => true,
            Some(xi) => {
                &&& atoi_from(s, xi + 1, 0) <= u32::MAX
                &&& match find_from(s, '/', xi + 1) {
                    None => true,
                    Some(si) => start < si + 1 <= s.len() ==> parse_fits(s, si + 1),
                }
            },
        }
    }
}

/// The attack segments of a damage string.
pub open spec fn segments(s: &str) -> Seq<Damage> {
    parse_from(s@, 0)
}

proof fn lemma_atoi_grows(s: Seq<char>, i: int, acc: nat)
    ensures
        acc <= atoi_from(s, i, acc),
    decreases s.len() - i,
{
    if 0 <= i < s.len() && is_digit(s[i]) {
        lemma_atoi_grows(s, i + 1, acc * 10 + (s[i] as nat - '0' as nat) as nat);
    }
}

proof fn lemma_find_from(s: Seq<char>, c: char, i: int)
    ensures
        find_from(s, c, i) matches Some(j) ==> i <= j < s.len() && s[j] == c,
    decreases s.len() - i,
{
    if 0 <= i < s.len() && s[i] != c {
        lemma_find_from(s, c, i + 1);
    }
}

/// `atoi` at index `i` of `s`.
fn atoi_at(s: &str, n: usize, i: usize) -> (r: u32)
    requires
        n == s@.len(),
        atoi_from(s@, i as int, 0) <= u32::MAX,
    ensures
        r == atoi_from(s@, i as int, 0),
{
    let mut acc: u32 = 0;
    let mut j = i;
    while j < n && is_ascii_digit(s.get_char(j))
        invariant
            n == s@.len(),
            i <= j,
            atoi_from(s@, j as int, acc as nat) == atoi_from(s@, i as int, 0),
            atoi_from(s@, i as int, 0) <= u32::MAX,
        decreases n - j,
    {
        let c = s.get_char(j);
        let d = c as u32 - '0' as u32;
        proof {
            lemma_atoi_grows(s@, j + 1, (acc * 10 + d) as nat);
        }
        acc = acc * 10 + d;
        j = j + 1;
    }
    acc
}

fn is_ascii_digit(c: char) -> (b: bool)
    ensures
        b == is_digit(c),
{
    '0' <= c && c <= '9'
}

/// The first index at or after `i` where `s` holds `c`.
fn find_char(s: &str, n: usize, c: char, i: usize) -> (r: Option<usize>)
    requires
        n == s@.len(),
    ensures
        r matches Some(j) ==> find_from(s@, c, i as int) == Some(j as int),
        r is None ==> find_from(s@, c, i as int) is None,
{
    let mut j = i;
    while j < n
        invariant
            n == s@.len(),
            i <= j,
            find_from(s@, c, j as int) == find_from(s@, c, i as int),
        decreases n - j,
    {
        if s.get_char(j) == c {
            return Some(j);
        }
        j = j + 1;
    }
    None
}

/// Parse a damage string into its attack segments: `'x'` separates dice
/// from sides (`"2x4"` = 2d4), `'/'` separates independent attacks each
/// with its own to-hit roll. A segment without leading digits reads as 0
/// (atoi semantics), so the flytrap's `"%%%x0"` parses as `0x0`.
pub fn parse_damage(s: &str) -> (out: Vec<Damage>)
    requires
        parse_fits(s@, 0),
    ensures
        out@ == segments(s),
{
    let n = s.unicode_len();
    let mut out: Vec<Damage> = Vec::new();
    let mut rest: usize = 0;
    while rest < n
        invariant
            n == s@.len(),
            rest <= n,
            parse_fits(s@, rest as int),
            out@ + parse_from(s@, rest as int) == segments(s),
        decreases n - rest,
    {
        let dice = atoi_at(s, n, rest);
        let x_at = match find_char(s, n, 'x', rest) {
            Some(x) => x,
            None => {
                assert(out@ + parse_from(s@, rest as int) =~= out@);
                return out;
            },
        };
        proof {
            lemma_find_from(s@, 'x', rest as int);
        }
        let sides = atoi_at(s, n, x_at + 1);
        let ghost before = out@;
        out.push(Damage { dice, sides });
        match find_char(s, n, '/', x_at + 1) {
            Some(slash) => {
                proof {
                    lemma_find_from(s@, '/', x_at + 1);
                    assert(out@ + parse_from(s@, slash + 1) =~= before + parse_from(s@, rest as int));
                }
                rest = slash + 1;
            },
            None => {
                assert(out@ =~= before + parse_from(s@, rest as int));
                return out;
            },
        }
    }
    assert(out@ + parse_from(s@, rest as int) =~= out@);
    out
}


// ---------------------------------------------------------------------
// Experience
// ---------------------------------------------------------------------

/// The experience needed for level `i + 2`.
pub open spec fn e_level(i: int) -> int {
    if i == 0 { 10 }
    else if i == 1 { 20 }
    else if i == 2 { 40 }
    else if i == 3 { 80 }
    else if i == 4 { 160 }
    else if i == 5 { 320 }
    else if i == 6 { 640 }
    else if i == 7 { 1300 }
    else if i == 8 { 2600 }
    else if i == 9 { 5200 }
    else if i == 10 { 13000 }
    else if i == 11 { 26000 }
    else if i == 12 { 50000 }
    else if i == 13 { 100000 }
    else if i == 14 { 200000 }
    else if i == 15 { 400000 }
    else if i == 16 { 800000 }
    else if i == 17 { 2000000 }
    else if i == 18 { 4000000 }
    else { 8000000 }
}

/// How many thresholds from `i` on are passed before the first one above
/// `exp`.
pub open spec fn thresholds_passed(exp: int, i: int) -> nat
    decreases 20 - i,
{
    if i < 0 || i >= 20 || e_level(i) > exp {
        0
    } else {
        1 + thresholds_passed(exp, i + 1)
    }
}

/// The level for `exp`: level N requires `exp >= e_levels[N-2]`, walking the
/// thresholds in order; capped at `MAX_LEVEL`.
pub open spec fn level_for(exp: int) -> nat {
    let l = 1 + thresholds_passed(exp, 0);
    if l > MAX_LEVEL { MAX_LEVEL as nat } else { l }
}

proof fn lemma_thresholds_passed(exp: int, i: int)
    requires
        0 <= i <= 20,
    ensures
        thresholds_passed(exp, i) <= 20 - i,
    decreases 20 - i,
{
    if i < 20 && e_level(i) <= exp {
        lemma_thresholds_passed(exp, i + 1);
    }
}

/// Passing thresholds never goes backwards as experience grows.
proof fn lemma_thresholds_monotone(e1: int, e2: int, i: int)
    requires
        e1 <= e2,
    ensures
        thresholds_passed(e1, i) <= thresholds_passed(e2, i),
    decreases 20 - i,
{
    if 0 <= i < 20 && e_level(i) <= e1 {
        lemma_thresholds_monotone(e1, e2, i + 1);
    }
}

/// The experience level never falls as experience grows.
pub proof fn lemma_level_for_monotone(e1: int, e2: int)
    requires
        e1 <= e2,
    ensures
        level_for(e1) <= level_for(e2),
{
    lemma_thresholds_monotone(e1, e2, 0);
}

/// The level for `exp`: level N requires `exp >= E_LEVELS[N-2]`, capped at
/// `MAX_LEVEL` (level 21, at 8,000,000 exp).
pub fn level_for_exp(exp: i32) -> (level: u32)
    ensures
        level == level_for(exp as int),
        1 <= level <= MAX_LEVEL,
{
    proof {
        assert(E_LEVELS@ =~= seq![10i32, 20, 40, 80, 160, 320, 640, 1300, 2600, 5200, 13000, 26000, 50000, 100000, 200000, 400000, 800000, 2000000, 4000000, 8000000]);
    }
    let mut level: u32 = 1;
    let mut i: usize = 0;
    while i < 20
        invariant
            i <= 20,
            level == 1 + i,
            E_LEVELS@.len() == 20,
            forall|k: int| 0 <= k < 20 ==> E_LEVELS@[k] == e_level(k),
            level + thresholds_passed(exp as int, i as int) == 1 + thresholds_passed(exp as int, 0),
        ensures
            level == 1 + thresholds_passed(exp as int, 0),
        decreases 20 - i,
    {
        if E_LEVELS[i] > exp {
            assert(thresholds_passed(exp as int, i as int) == 0);
            break;
        }
        level = level + 1;
        i = i + 1;
    }
    proof {
        lemma_thresholds_passed(exp as int, 0);
    }
    if level < MAX_LEVEL { level } else { MAX_LEVEL }
}


/// Integer division rounding toward zero, as Rust's `/` does.
pub open spec fn div_trunc(a: int, b: int) -> int {
    if a >= 0 {
        a / b
    } else {
        -((-a) / b)
    }
}

/// Monster depth scaling: extra levels of toughness per floor below the
/// Amulet level. Floors 1-26 spawn monsters at their rules-table stats.
pub open spec fn lev_add_value(floor: u32) -> nat {
    if floor > AMULET_LEVEL {
        (floor - AMULET_LEVEL) as nat
    } else {
        0
    }
}

/// Monster depth scaling: `lev_add` extra levels of toughness per floor
/// below the Amulet level (deeper than 26).
pub fn lev_add(floor: u32) -> (r: u32)
    ensures
        r == lev_add_value(floor),
{
    floor.saturating_sub(AMULET_LEVEL)
}

/// The `exp_add` term: extra experience from the rolled max HP, scaled up
/// for high-level monsters.
pub open spec fn exp_add_value(level: int, max_hp: int) -> int {
    let m = if level == 1 { div_trunc(max_hp, 8) } else { div_trunc(max_hp, 6) };
    if level > 9 {
        m * 20
    } else if level > 6 {
        m * 4
    } else {
        m
    }
}

/// `exp_add` stays inside `i32`.
pub open spec fn exp_add_fits(level: int, max_hp: int) -> bool {
    i32::MIN <= exp_add_value(level, max_hp) <= i32::MAX
}

/// The `exp_add` term: extra experience from the rolled max HP, scaled up
/// for high-level monsters.
pub fn exp_add(level: u32, max_hp: i32) -> (r: i32)
    requires
        exp_add_fits(level as int, max_hp as int),
    ensures
        r == exp_add_value(level as int, max_hp as int),
{
    let mut m = if level == 1 { max_hp / 8 } else { max_hp / 6 };
    if level > 9 {
        m = m * 20;
    } else if level > 6 {
        m = m * 4;
    }
    m
}


// ---------------------------------------------------------------------
// The attack sequence
// ---------------------------------------------------------------------

pub open spec fn max0(a: int) -> int {
    if a > 0 { a } else { 0 }
}

/// The most damage segments `k..` can deal, each hit worth at most
/// `bonus + dice * sides`.
pub open spec fn worst_total(segs: Seq<Damage>, bonus: int, k: int) -> int
    decreases segs.len() - k,
{
    if k < 0 || k >= segs.len() {
        0
    } else {
        max0(bonus + segs[k].dice * segs[k].sides) + worst_total(segs, bonus, k + 1)
    }
}

/// The to-hit bonus of an attack: weapon, strength, and +4 against a
/// disabled defender.
pub open spec fn attack_wplus(a: AttackSpec, def_running: bool) -> int {
    a.hplus + str_plus_value(a.strength) + if def_running { 0int } else { 4int }
}

/// The attack's arithmetic stays inside `i32` whatever the dice show.
pub open spec fn attack_fits(a: AttackSpec, def_arm: i32) -> bool {
    let segs = segments(a.damage);
    &&& parse_fits(a.damage@, 0)
    &&& i32::MIN + 7 <= a.hplus <= i32::MAX - 30
    &&& a.level <= i32::MAX
    &&& i32::MIN <= 20 - a.level - def_arm <= i32::MAX
    &&& i32::MIN + 7 <= a.dplus
    &&& forall|k: int| 0 <= k < segs.len() ==> (#[trigger] segs[k]).dice * segs[k].sides <= i32::MAX
    &&& forall|k: int| 0 <= k < segs.len() ==> (#[trigger] segs[k]).dice * segs[k].sides <= i32::MAX - 6 - a.dplus
    &&& worst_total(segs, a.dplus + 6, 0) <= i32::MAX
    &&& segs.len() <= u32::MAX
}

/// The attack sequence over segments `k..` from state `s`, with `acc` so far:
/// each segment swings independently; a hit deals `dplus + roll(N,S) +
/// add_dam[str]`, floored at zero.
pub open spec fn roll_em_from(
    s: u64,
    a: AttackSpec,
    segs: Seq<Damage>,
    def_arm: i32,
    wplus: int,
    k: int,
    hits: int,
    damage: int,
) -> (int, int, u64)
    decreases segs.len() - k,
{
    if k < 0 || k >= segs.len() {
        (hits, damage, s)
    } else {
        let s1 = next_state(s);
        if below_value(s, 20) + wplus >= 20 - a.level - def_arm {
            let (r, s2) = roll_value(s1, segs[k].dice as nat, segs[k].sides as nat);
            let dmg = a.dplus + r + add_dam_value(a.strength);
            roll_em_from(s2, a, segs, def_arm, wplus, k + 1, hits + 1, damage + max0(dmg))
        } else {
            roll_em_from(s1, a, segs, def_arm, wplus, k + 1, hits, damage)
        }
    }
}

/// What `roll_em` returns from state `s`, and the state after.
pub open spec fn roll_em_value(s: u64, a: AttackSpec, def_arm: i32, def_running: bool) -> (HitResult, u64) {
    let (hits, damage, s2) = roll_em_from(
        s,
        a,
        segments(a.damage),
        def_arm,
        attack_wplus(a, def_running),
        0,
        0,
        0,
    );
    (HitResult { hits: hits as u32, damage: damage as i32 }, s2)
}

proof fn lemma_roll_em_bounds(
    s: u64,
    a: AttackSpec,
    segs: Seq<Damage>,
    def_arm: i32,
    wplus: int,
    k: int,
    hits: int,
    damage: int,
)
    requires
        0 <= k <= segs.len(),
        0 <= hits <= k,
        0 <= damage,
        forall|j: int| 0 <= j < segs.len() ==> (#[trigger] segs[j]).dice * segs[j].sides <= i32::MAX,
    ensures
        ({
            let (h, d, _) = roll_em_from(s, a, segs, def_arm, wplus, k, hits, damage);
            hits <= h <= segs.len() && damage <= d <= damage + worst_total(segs, a.dplus + 6, k)
        }),
    decreases segs.len() - k,
{
    if k < segs.len() {
        let s1 = next_state(s);
        if below_value(s, 20) + wplus >= 20 - a.level - def_arm {
            let (r, s2) = roll_value(s1, segs[k].dice as nat, segs[k].sides as nat);
            lemma_roll_bounds(s1, segs[k].dice as nat, segs[k].sides as nat);
            let dmg = a.dplus + r + add_dam_value(a.strength);
            lemma_roll_em_bounds(s2, a, segs, def_arm, wplus, k + 1, hits + 1, damage + max0(dmg));
        } else {
            lemma_roll_em_bounds(s1, a, segs, def_arm, wplus, k + 1, hits, damage);
        }
    }
}

proof fn lemma_worst_total_nonneg(segs: Seq<Damage>, bonus: int, k: int)
    ensures
        0 <= worst_total(segs, bonus, k),
    decreases segs.len() - k,
{
    if 0 <= k < segs.len() {
        lemma_worst_total_nonneg(segs, bonus, k + 1);
    }
}

/// The attack sequence reads the attacker's level, strength and damage
/// bonus, never its to-hit bonus: that enters only through `wplus`.
proof fn lemma_roll_em_from_hplus(
    s: u64,
    a: AttackSpec,
    b: AttackSpec,
    segs: Seq<Damage>,
    def_arm: i32,
    wplus: int,
    k: int,
    hits: int,
    damage: int,
)
    requires
        a.level == b.level,
        a.strength == b.strength,
        a.dplus == b.dplus,
    ensures
        roll_em_from(s, a, segs, def_arm, wplus, k, hits, damage) == roll_em_from(s, b, segs, def_arm, wplus, k, hits, damage),
    decreases segs.len() - k,
{
    if 0 <= k < segs.len() {
        let s1 = next_state(s);
        if below_value(s, 20) + wplus >= 20 - a.level - def_arm {
            let (r, s2) = roll_value(s1, segs[k].dice as nat, segs[k].sides as nat);
            let dmg = a.dplus + r + add_dam_value(a.strength);
            lemma_roll_em_from_hplus(s2, a, b, segs, def_arm, wplus, k + 1, hits + 1, damage + max0(dmg));
        } else {
            lemma_roll_em_from_hplus(s1, a, b, segs, def_arm, wplus, k + 1, hits, damage);
        }
    }
}

/// Attacking a defender that is not running is exactly attacking a running
/// one with 4 more to hit: the same swings land, and the damage is the same.
pub proof fn lemma_not_running_bonus(s: u64, a: AttackSpec, def_arm: i32)
    requires
        a.hplus + 4 <= i32::MAX,
    ensures
        roll_em_value(s, a, def_arm, false) == roll_em_value(s, AttackSpec { hplus: (a.hplus + 4) as i32, ..a }, def_arm, true),
{
    let b = AttackSpec { hplus: (a.hplus + 4) as i32, ..a };
    assert(attack_wplus(a, false) == attack_wplus(b, true));
    lemma_roll_em_from_hplus(s, a, b, segments(a.damage), def_arm, attack_wplus(a, false), 0, 0, 0);
}

/// The full attack sequence: each `/`-separated damage segment swings
/// independently; a hit deals `dplus + roll(N,S) + add_dam[str]`, floored at
/// zero so combat never heals. A defender that is not running gives the
/// attacker +4 to hit.
pub fn roll_em(rng: &mut Rng, spec: &AttackSpec, def_arm: i32, def_running: bool) -> (r: HitResult)
    requires
        attack_fits(*spec, def_arm),
    ensures
        (r, final(rng)@) == roll_em_value(old(rng)@, *spec, def_arm, def_running),
        r.damage >= 0,
{
    let wplus = spec.hplus + str_plus(spec.strength) + if def_running { 0 } else { 4 };
    let segs = parse_damage(spec.damage);
    let ghost all = segs@;
    let ghost target = roll_em_value(old(rng)@, *spec, def_arm, def_running);
    let mut hits: u32 = 0;
    let mut damage: i32 = 0;
    let mut k: usize = 0;
    proof {
        lemma_roll_em_bounds(rng@, *spec, all, def_arm, wplus as int, 0, 0, 0);
    }
    while k < segs.len()
        invariant
            segs@ == all,
            all == segments(spec.damage),
            attack_fits(*spec, def_arm),
            wplus == attack_wplus(*spec, def_running),
            k <= all.len(),
            0 <= hits <= k,
            0 <= damage,
            damage + worst_total(all, spec.dplus + 6, k as int) <= i32::MAX,
            ({
                let (h, d, s2) = roll_em_from(rng@, *spec, all, def_arm, wplus as int, k as int, hits as int, damage as int);
                (HitResult { hits: h as u32, damage: d as i32 }, s2)
            }) == target,
        decreases all.len() - k,
    {
        let seg = segs[k];
        proof {
            lemma_worst_total_nonneg(all, spec.dplus + 6, k + 1);
        }
        if swing(rng, spec.level, def_arm, wplus) {
            let ghost s1 = rng@;
            let r = roll(rng, seg.dice, seg.sides);
            proof {
                lemma_roll_bounds(s1, seg.dice as nat, seg.sides as nat);
            }
            let d = spec.dplus + r + add_dam(spec.strength);
            let d0 = if d > 0 { d } else { 0 };
            damage = damage + d0;
            hits = hits + 1;
        }
        k = k + 1;
    }
    HitResult { hits, damage }
}


// ---------------------------------------------------------------------
// Experience and levels
// ---------------------------------------------------------------------

/// Levels `p` has earned but not yet gained.
pub open spec fn level_gain(p: Player) -> nat {
    let t = level_for(p.experience as int);
    if t > p.level { (t - p.level) as nat } else { 0 }
}

/// Hit points stay inside `i32` whatever the level-up roll.
pub open spec fn level_up_fits(p: Player) -> bool {
    &&& p.max_hp + 10 * level_gain(p) <= i32::MAX
    &&& p.hp + 10 * level_gain(p) <= i32::MAX
}

/// `check_level` from state `s`: the player after the level-ups, the number
/// of levels gained, and the state after. Each level gained adds
/// `roll(gained, 10)` to both max and current hit points.
pub open spec fn leveled(p: Player, s: u64) -> (Player, nat, u64) {
    let gained = level_gain(p);
    if gained > 0 {
        let (add, s2) = roll_value(s, gained, 10);
        (
            Player {
                max_hp: (p.max_hp + add) as i32,
                hp: (p.hp + add) as i32,
                level: level_for(p.experience as int) as u32,
                ..p
            },
            gained,
            s2,
        )
    } else {
        (p, 0, s)
    }
}

/// Level-up bookkeeping: recompute the level from experience; each level
/// gained adds `roll(gained, 10)` to both max and current HP. Strength never
/// changes on level-up. Returns the number of levels gained.
pub fn check_level(player: &mut Player, rng: &mut Rng) -> (gained: u32)
    requires
        level_up_fits(*old(player)),
    ensures
        (*final(player), gained as nat, final(rng)@) == leveled(*old(player), old(rng)@),
{
    let target = level_for_exp(player.experience);
    let gained = target.saturating_sub(player.level);
    if gained > 0 {
        let ghost s0 = rng@;
        let add = roll(rng, gained, 10);
        proof {
            lemma_roll_bounds(s0, gained as nat, 10);
        }
        player.max_hp = player.max_hp + add;
        player.hp = player.hp + add;
        player.level = target;
    }
    gained
}

/// The experience of a kill stays inside `i32` and the level-up after it
/// too.
pub open spec fn kill_fits(p: Player, m: Monster) -> bool {
    &&& i32::MIN <= p.experience + m.exp <= i32::MAX
    &&& level_up_fits(Player { experience: (p.experience + m.exp) as i32, ..p })
}

/// A kill from state `s`: the player gains the monster's experience and any
/// levels it brings, and the monster is zeroed.
pub open spec fn killed_value(p: Player, m: Monster, s: u64) -> (Player, Monster, u64) {
    let (p2, _, s2) = leveled(Player { experience: (p.experience + m.exp) as i32, ..p }, s);
    (p2, Monster { hp: 0, ..m }, s2)
}

/// A kill: grant the monster's current (scaled) experience, zero the
/// monster out, then check for level-ups.
pub fn killed(player: &mut Player, monster: &mut Monster, rng: &mut Rng)
    requires
        kill_fits(*old(player), *old(monster)),
    ensures
        (*final(player), *final(monster), final(rng)@) == killed_value(*old(player), *old(monster), old(rng)@),
{
    player.experience = player.experience + monster.exp;
    monster.hp = 0;
    check_level(player, rng);
}

// ---------------------------------------------------------------------
// Fights
// ---------------------------------------------------------------------

/// The player's attack with `w`: its level and strength, the weapon's damage
/// and bonuses.
pub open spec fn player_attack_spec(p: Player, w: Weapon) -> AttackSpec {
    AttackSpec { level: p.level, strength: p.strength, damage: w.damage, hplus: w.hplus, dplus: w.dplus }
}

/// A monster's attack: its level and table damage string, strength 10, no
/// bonuses.
pub open spec fn monster_attack_spec(m: Monster) -> AttackSpec {
    AttackSpec { level: m.level, strength: 10, damage: rules_of(m.kind).damage, hplus: 0, dplus: 0 }
}

/// The player's attack on `m` stays inside `i32`: the dice, the monster's
/// hit points after the blow, and the experience of a kill.
pub open spec fn player_attack_fits(p: Player, m: Monster, w: Weapon) -> bool {
    let a = player_attack_spec(p, w);
    &&& attack_fits(a, m.armor_class)
    &&& i32::MIN <= m.hp - worst_total(segments(w.damage), w.dplus + 6, 0)
    &&& m.hp <= i32::MAX
    &&& kill_fits(p, m)
}

/// `player_attack` from state `s`: the hit result, the player and monster
/// after, and the state after.
pub open spec fn player_attack_value(s: u64, p: Player, m: Monster, w: Weapon) -> (HitResult, Player, Monster, u64) {
    let (r, s1) = roll_em_value(s, player_attack_spec(p, w), m.armor_class, true);
    let m2 = Monster { running: true, hp: (m.hp - r.damage) as i32, ..m };
    if m2.hp <= 0 {
        let (p2, m3, s2) = killed_value(p, m2, s1);
        (r, p2, m3, s2)
    } else {
        (r, p, m2, s1)
    }
}

/// The player attacking a monster it stepped into: wake the target before
/// any swing (so the player never gets the +4 against a sleeper), roll the
/// attack, and on a kill grant experience and check for level-ups.
pub fn player_attack(rng: &mut Rng, player: &mut Player, monster: &mut Monster, weapon: &Weapon) -> (r: HitResult)
    requires
        player_attack_fits(*old(player), *old(monster), *weapon),
    ensures
        (r, *final(player), *final(monster), final(rng)@) == player_attack_value(old(rng)@, *old(player), *old(monster), *weapon),
        r.damage >= 0,
{
    monster.running = true;
    let spec = AttackSpec {
        level: player.level,
        strength: player.strength,
        damage: weapon.damage,
        hplus: weapon.hplus,
        dplus: weapon.dplus,
    };
    let ghost s0 = rng@;
    let result = roll_em(rng, &spec, monster.armor_class, monster.running);
    proof {
        lemma_roll_em_bounds(s0, spec, segments(spec.damage), monster.armor_class, attack_wplus(spec, true), 0, 0, 0);
    }
    monster.hp = monster.hp - result.damage;
    if monster.hp <= 0 {
        proof {
            assert(kill_fits(*player, *monster));
        }
        killed(player, monster, rng);
    }
    result
}

/// The player's blow: the monster wakes and loses the damage dealt; a blow
/// that takes it to zero hit points or below kills it, zeroing it and
/// granting the player its experience and the levels that experience brings
/// (the level never falls). Otherwise the player is unchanged.
pub proof fn lemma_blow_law(s: u64, p: Player, m: Monster, w: Weapon)
    requires
        player_attack_fits(p, m, w),
    ensures
        ({
            let (r, p2, m2, _) = player_attack_value(s, p, m, w);
            let e = p.experience + m.exp;
            &&& r == roll_em_value(s, player_attack_spec(p, w), m.armor_class, true).0
            &&& m2 == Monster { hp: m2.hp, running: true, ..m }
            &&& (m.hp - r.damage <= 0 ==> {
                &&& m2.hp == 0
                &&& p2.experience == e
                &&& p2.level == (if level_for(e) > p.level { level_for(e) } else { p.level as nat })
                &&& p2.hp >= p.hp
                &&& p2 == Player { experience: p2.experience, level: p2.level, hp: p2.hp, max_hp: p2.max_hp, ..p }
            })
            &&& (m.hp - r.damage > 0 ==> m2.hp == m.hp - r.damage && p2 == p)
        }),
{
    let (r, s1) = roll_em_value(s, player_attack_spec(p, w), m.armor_class, true);
    lemma_roll_em_bounds(s, player_attack_spec(p, w), segments(w.damage), m.armor_class, attack_wplus(player_attack_spec(p, w), true), 0, 0, 0);
    lemma_worst_total_nonneg(segments(w.damage), w.dplus + 6, 0);
    let m2 = Monster { running: true, hp: (m.hp - r.damage) as i32, ..m };
    if m2.hp <= 0 {
        let q = Player { experience: (p.experience + m2.exp) as i32, ..p };
        let gained = level_gain(q);
        if gained > 0 {
            lemma_roll_bounds(s1, gained, 10);
        }
    }
}

/// The most damage any monster of the table deals in one attack sequence.
pub const MAX_MONSTER_DAMAGE: i32 = 64;

/// A monster's attack stays inside `i32`: the to-hit target
/// `20 - level - armor` fits. (Its table damage always fits.)
pub open spec fn monster_attack_fits(m: Monster, player_arm: i32) -> bool {
    &&& m.level <= i32::MAX
    &&& i32::MIN <= 20 - m.level - player_arm <= i32::MAX
}

/// `monster_attack` from state `s`: the hit result, the player after, and
/// the state after. Damage never takes the player below zero hit points.
pub open spec fn monster_attack_value(s: u64, m: Monster, p: Player, player_arm: i32) -> (HitResult, Player, u64) {
    let (r, s1) = roll_em_value(s, monster_attack_spec(m), player_arm, p.running);
    let hp = p.hp - r.damage;
    (r, Player { hp: if hp > 0 { hp as i32 } else { 0 }, ..p }, s1)
}

/// A monster attacking the player: its table damage string, no weapon or
/// strength bonuses. The player's hit points never drop below zero.
pub fn monster_attack(rng: &mut Rng, monster: &Monster, player: &mut Player, player_arm: i32) -> (r: HitResult)
    requires
        monster_attack_fits(*monster, player_arm),
        old(player).hp >= i32::MIN + MAX_MONSTER_DAMAGE,
    ensures
        (r, *final(player), final(rng)@) == monster_attack_value(old(rng)@, *monster, *old(player), player_arm),
        final(player).hp >= 0,
        r.damage >= 0,
{
    let spec = AttackSpec {
        level: monster.level,
        strength: 10,
        damage: monster.damage_string(),
        hplus: 0,
        dplus: 0,
    };
    proof {
        lemma_table_damage(monster.kind);
    }
    let ghost s0 = rng@;
    let result = roll_em(rng, &spec, player_arm, player.running);
    proof {
        lemma_roll_em_bounds(s0, spec, segments(spec.damage), player_arm, attack_wplus(spec, player.running), 0, 0, 0);
    }
    let hp = player.hp - result.damage;
    player.hp = if hp > 0 { hp } else { 0 };
    result
}


/// One segment written in "AxB" notation, e.g. `2x4`.
pub open spec fn segment_text(d: Damage) -> Seq<char> {
    digits(d.dice as nat) + seq!['x'] + digits(d.sides as nat)
}

/// Segments written in "AxB" notation, joined by `/`.
pub open spec fn damage_text(segs: Seq<Damage>) -> Seq<char>
    decreases segs.len(),
{
    if segs.len() == 0 {
        Seq::empty()
    } else if segs.len() == 1 {
        segment_text(segs[0])
    } else {
        segment_text(segs[0]) + seq!['/'] + damage_text(segs.drop_first())
    }
}

/// A run of digits read left to right onto `acc`.
spec fn run_value(acc: nat, r: Seq<char>) -> nat
    decreases r.len(),
{
    if r.len() == 0 {
        acc
    } else {
        (run_value(acc, r.drop_last()) * 10 + (r.last() as nat - '0' as nat)) as nat
    }
}

/// `atoi` reads a run of digits `r` at `i` into `run_value`.
proof fn lemma_atoi_run(s: Seq<char>, i: int, acc: nat, r: Seq<char>)
    requires
        0 <= i,
        i + r.len() <= s.len(),
        s.subrange(i, i + r.len()) == r,
        forall|k: int| 0 <= k < r.len() ==> is_digit(#[trigger] r[k]),
    ensures
        atoi_from(s, i, acc) == atoi_from(s, i + r.len(), run_value(acc, r)),
    decreases r.len(),
{
    if r.len() > 0 {
        let r2 = r.drop_last();
        let j = i + r2.len();
        assert(s.subrange(i, j) =~= r2);
        lemma_atoi_run(s, i, acc, r2);
        assert(s[j] == s.subrange(i, i + r.len())[r2.len() as int]);
        assert(s[j] == r.last());
        assert(is_digit(r[r.len() - 1]));
    }
}

/// The decimal digits of `n` are digits and read back as `n`.
proof fn lemma_digits_read(n: nat)
    ensures
        digits(n).len() >= 1,
        forall|k: int| 0 <= k < digits(n).len() ==> is_digit(#[trigger] digits(n)[k]),
        run_value(0, digits(n)) == n,
    decreases n,
{
    assert(run_value(0, Seq::<char>::empty()) == 0);
    if n < 10 {
        let c = digit_char(n);
        assert(is_digit(c) && c as nat - '0' as nat == n);
        assert(digits(n) =~= seq![c]);
        assert(digits(n).drop_last() =~= Seq::<char>::empty());
        assert(digits(n).last() == c);
    } else {
        lemma_digits_read(n / 10);
        let c = digit_char(n % 10);
        assert(is_digit(c) && c as nat - '0' as nat == n % 10);
        assert(digits(n) == digits(n / 10).push(c));
        assert(digits(n).drop_last() =~= digits(n / 10));
        assert(digits(n).last() == c);
        assert(n / 10 * 10 + n % 10 == n);
        assert forall|k: int| 0 <= k < digits(n).len() implies is_digit(#[trigger] digits(n)[k]) by {
            if k < digits(n / 10).len() {
                assert(digits(n)[k] == digits(n / 10)[k]);
            }
        }
    }
}

/// `find_from` skips a stretch without `c`.
proof fn lemma_find_skips(s: Seq<char>, c: char, i: int, k: int)
    requires
        0 <= i,
        0 <= k,
        i + k <= s.len(),
        forall|m: int| i <= m < i + k ==> #[trigger] s[m] != c,
    ensures
        find_from(s, c, i) == find_from(s, c, i + k),
    decreases k,
{
    if k > 0 {
        lemma_find_skips(s, c, i + 1, k - 1);
    }
}

/// Parsing the written segments back from `start` of `t`, where the rest of
/// `t` is their text.
proof fn lemma_parse_text(t: Seq<char>, start: int, segs: Seq<Damage>)
    requires
        segs.len() > 0,
        0 <= start <= t.len(),
        t.subrange(start, t.len() as int) == damage_text(segs),
    ensures
        parse_from(t, start) == segs,
        parse_fits(t, start),
    decreases segs.len(),
{
    let d = segs[0];
    let a = digits(d.dice as nat);
    let b = digits(d.sides as nat);
    lemma_digits_read(d.dice as nat);
    lemma_digits_read(d.sides as nat);
    let u = damage_text(segs);
    let st = segment_text(d);
    let xi = start + a.len();
    let end = xi + 1 + b.len();
    assert(st.len() == a.len() + 1 + b.len());
    assert(u.len() >= st.len() && u.subrange(0, st.len() as int) =~= st) by {
        if segs.len() > 1 {
            assert(u =~= st + seq!['/'] + damage_text(segs.drop_first()));
        }
    }
    assert(t.len() == start + u.len());
    assert forall|k: int| 0 <= k < st.len() implies #[trigger] t[start + k] == st[k] by {
        assert(t.subrange(start, t.len() as int)[k] == t[start + k]);
        assert(u.subrange(0, st.len() as int)[k] == u[k]);
    }
    assert(t.subrange(start, xi) =~= a) by {
        assert forall|k: int| 0 <= k < a.len() implies t.subrange(start, xi)[k] == a[k] by {
            assert(t[start + k] == st[k]);
        }
    }
    assert(t[xi] == 'x') by {
        assert(t[start + a.len()] == st[a.len() as int]);
    }
    assert(t.subrange(xi + 1, end) =~= b) by {
        assert forall|k: int| 0 <= k < b.len() implies t.subrange(xi + 1, end)[k] == b[k] by {
            assert(t[start + (a.len() + 1 + k)] == st[a.len() + 1 + k]);
        }
    }
    lemma_atoi_run(t, start, 0, a);
    lemma_atoi_run(t, xi + 1, 0, b);
    assert forall|m: int| start <= m < xi implies #[trigger] t[m] != 'x' by {
        assert(t.subrange(start, xi)[m - start] == t[m]);
        assert(is_digit(a[m - start]));
    }
    assert forall|m: int| xi + 1 <= m < end implies #[trigger] t[m] != '/' by {
        assert(t.subrange(xi + 1, end)[m - (xi + 1)] == t[m]);
        assert(is_digit(b[m - (xi + 1)]));
    }
    lemma_find_skips(t, 'x', start, a.len() as int);
    lemma_find_skips(t, '/', xi + 1, b.len() as int);
    assert(atoi_from(t, start, 0) == d.dice);
    assert(find_from(t, 'x', start) == Some(xi));
    let d2 = Damage { dice: atoi_from(t, start, 0) as u32, sides: atoi_from(t, xi + 1, 0) as u32 };
    if segs.len() == 1 {
        assert(u =~= segment_text(d));
        assert(end == t.len());
        assert(atoi_from(t, xi + 1, 0) == d.sides);
        assert(find_from(t, '/', xi + 1) is None);
        assert(d2 == d);
        assert(parse_from(t, start) =~= segs);
    } else {
        let rest = segs.drop_first();
        assert(u =~= segment_text(d) + seq!['/'] + damage_text(rest));
        assert(t[end] == '/') by {
            assert(t.subrange(start, t.len() as int)[end - start] == t[end]);
        }
        assert(atoi_from(t, xi + 1, 0) == d.sides);
        assert(find_from(t, '/', xi + 1) == Some(end));
        assert(t.subrange(end + 1, t.len() as int) =~= damage_text(rest)) by {
            assert forall|k: int| 0 <= k < t.len() - (end + 1) implies t.subrange(end + 1, t.len() as int)[k] == damage_text(rest)[k] by {
                assert(t.subrange(start, t.len() as int)[end + 1 - start + k] == t[end + 1 + k]);
            }
        }
        lemma_parse_text(t, end + 1, rest);
        assert(d2 == d);
        assert(parse_from(t, start) =~= seq![d] + rest);
        assert(seq![d] + rest =~= segs);
    }
}

/// Writing attack segments in "AxB" notation joined by `/` and parsing the
/// text gives the same segments back, in order, and every number read fits:
/// so `parse_damage` on such a string returns exactly those segments.
pub proof fn lemma_parse_damage_text(segs: Seq<Damage>)
    requires
        segs.len() > 0,
    ensures
        parse_fits(damage_text(segs), 0),
        parse_from(damage_text(segs), 0) == segs,
{
    let t = damage_text(segs);
    assert(t.subrange(0, t.len() as int) =~= t);
    lemma_parse_text(t, 0, segs);
}

/// The segments of '%%%x0'.
proof fn lemma_damage_string_0()
    ensures
        parse_fits("%%%x0"@, 0),
        segments("%%%x0") == seq![Damage { dice: 0, sides: 0 }],
        worst_total(segments("%%%x0"), 6, 0) == 6,
        forall|j: int| 0 <= j < segments("%%%x0").len() ==> (#[trigger] segments("%%%x0")[j]).dice * segments("%%%x0")[j].sides <= 30,
{
    reveal_strlit("%%%x0");
    reveal_with_fuel(atoi_from, 4);
    reveal_with_fuel(find_from, 6);
    reveal_with_fuel(parse_from, 4);
    reveal_with_fuel(parse_fits, 4);
    reveal_with_fuel(worst_total, 4);
    assert(segments("%%%x0") =~= seq![Damage { dice: 0, sides: 0 }]);
    let segs = seq![Damage { dice: 0, sides: 0 }];
    assert(segs[0] == Damage { dice: 0, sides: 0 });
    assert(segs[0].dice * segs[0].sides == 0) by (nonlinear_arith)
        requires
            segs[0].dice == 0,
            segs[0].sides == 0,
    ;
    assert forall|j: int| 0 <= j < segs.len() implies #[trigger] segs[j].dice * segs[j].sides <= 30 by {}
    assert(worst_total(segs, 6, 1) == 0);
    assert(worst_total(segs, 6, 0) == 6);
}

/// The segments of '0x0'.
proof fn lemma_damage_string_1()
    ensures
        parse_fits("0x0"@, 0),
        segments("0x0") == seq![Damage { dice: 0, sides: 0 }],
        worst_total(segments("0x0"), 6, 0) == 6,
        forall|j: int| 0 <= j < segments("0x0").len() ==> (#[trigger] segments("0x0")[j]).dice * segments("0x0")[j].sides <= 30,
{
    reveal_strlit("0x0");
    reveal_with_fuel(atoi_from, 4);
    reveal_with_fuel(find_from, 4);
    reveal_with_fuel(parse_from, 4);
    reveal_with_fuel(parse_fits, 4);
    reveal_with_fuel(worst_total, 4);
    assert(segments("0x0") =~= seq![Damage { dice: 0, sides: 0 }]);
    let segs = seq![Damage { dice: 0, sides: 0 }];
    assert(segs[0] == Damage { dice: 0, sides: 0 });
    assert(segs[0].dice * segs[0].sides == 0) by (nonlinear_arith)
        requires
            segs[0].dice == 0,
            segs[0].sides == 0,
    ;
    assert forall|j: int| 0 <= j < segs.len() implies #[trigger] segs[j].dice * segs[j].sides <= 30 by {}
    assert(worst_total(segs, 6, 1) == 0);
    assert(worst_total(segs, 6, 0) == 6);
}

/// The segments of '0x0/0x0'.
proof fn lemma_damage_string_2()
    ensures
        parse_fits("0x0/0x0"@, 0),
        segments("0x0/0x0") == seq![Damage { dice: 0, sides: 0 }, Damage { dice: 0, sides: 0 }],
        worst_total(segments("0x0/0x0"), 6, 0) == 12,
        forall|j: int| 0 <= j < segments("0x0/0x0").len() ==> (#[trigger] segments("0x0/0x0")[j]).dice * segments("0x0/0x0")[j].sides <= 30,
{
    reveal_strlit("0x0/0x0");
    reveal_with_fuel(atoi_from, 4);
    reveal_with_fuel(find_from, 8);
    reveal_with_fuel(parse_from, 4);
    reveal_with_fuel(parse_fits, 4);
    reveal_with_fuel(worst_total, 4);
    assert(segments("0x0/0x0") =~= seq![Damage { dice: 0, sides: 0 }, Damage { dice: 0, sides: 0 }]);
    let segs = seq![Damage { dice: 0, sides: 0 }, Damage { dice: 0, sides: 0 }];
    assert(segs[0] == Damage { dice: 0, sides: 0 });
    assert(segs[0].dice * segs[0].sides == 0) by (nonlinear_arith)
        requires
            segs[0].dice == 0,
            segs[0].sides == 0,
    ;
    assert(segs[1] == Damage { dice: 0, sides: 0 });
    assert(segs[1].dice * segs[1].sides == 0) by (nonlinear_arith)
        requires
            segs[1].dice == 0,
            segs[1].sides == 0,
    ;
    assert forall|j: int| 0 <= j < segs.len() implies #[trigger] segs[j].dice * segs[j].sides <= 30 by {
        if j == 0 {} else {}
    }
    assert(worst_total(segs, 6, 2) == 0);
    assert(worst_total(segs, 6, 1) == 6);
    assert(worst_total(segs, 6, 0) == 12);
}

/// The segments of '1x1'.
proof fn lemma_damage_string_3()
    ensures
        parse_fits("1x1"@, 0),
        segments("1x1") == seq![Damage { dice: 1, sides: 1 }],
        worst_total(segments("1x1"), 6, 0) == 7,
        forall|j: int| 0 <= j < segments("1x1").len() ==> (#[trigger] segments("1x1")[j]).dice * segments("1x1")[j].sides <= 30,
{
    reveal_strlit("1x1");
    reveal_with_fuel(atoi_from, 4);
    reveal_with_fuel(find_from, 4);
    reveal_with_fuel(parse_from, 4);
    reveal_with_fuel(parse_fits, 4);
    reveal_with_fuel(worst_total, 4);
    assert(segments("1x1") =~= seq![Damage { dice: 1, sides: 1 }]);
    let segs = seq![Damage { dice: 1, sides: 1 }];
    assert(segs[0] == Damage { dice: 1, sides: 1 });
    assert(segs[0].dice * segs[0].sides == 1) by (nonlinear_arith)
        requires
            segs[0].dice == 1,
            segs[0].sides == 1,
    ;
    assert forall|j: int| 0 <= j < segs.len() implies #[trigger] segs[j].dice * segs[j].sides <= 30 by {}
    assert(worst_total(segs, 6, 1) == 0);
    assert(worst_total(segs, 6, 0) == 7);
}

/// The segments of '1x10'.
proof fn lemma_damage_string_4()
    ensures
        parse_fits("1x10"@, 0),
        segments("1x10") == seq![Damage { dice: 1, sides: 10 }],
        worst_total(segments("1x10"), 6, 0) == 16,
        forall|j: int| 0 <= j < segments("1x10").len() ==> (#[trigger] segments("1x10")[j]).dice * segments("1x10")[j].sides <= 30,
{
    reveal_strlit("1x10");
    reveal_with_fuel(atoi_from, 4);
    reveal_with_fuel(find_from, 5);
    reveal_with_fuel(parse_from, 4);
    reveal_with_fuel(parse_fits, 4);
    reveal_with_fuel(worst_total, 4);
    assert(segments("1x10") =~= seq![Damage { dice: 1, sides: 10 }]);
    let segs = seq![Damage { dice: 1, sides: 10 }];
    assert(segs[0] == Damage { dice: 1, sides: 10 });
    assert(segs[0].dice * segs[0].sides == 10) by (nonlinear_arith)
        requires
            segs[0].dice == 1,
            segs[0].sides == 10,
    ;
    assert forall|j: int| 0 <= j < segs.len() implies #[trigger] segs[j].dice * segs[j].sides <= 30 by {}
    assert(worst_total(segs, 6, 1) == 0);
    assert(worst_total(segs, 6, 0) == 16);
}

/// The segments of '1x2'.
proof fn lemma_damage_string_5()
    ensures
        parse_fits("1x2"@, 0),
        segments("1x2") == seq![Damage { dice: 1, sides: 2 }],
        worst_total(segments("1x2"), 6, 0) == 8,
        forall|j: int| 0 <= j < segments("1x2").len() ==> (#[trigger] segments("1x2")[j]).dice * segments("1x2")[j].sides <= 30,
{
    reveal_strlit("1x2");
    reveal_with_fuel(atoi_from, 4);
    reveal_with_fuel(find_from, 4);
    reveal_with_fuel(parse_from, 4);
    reveal_with_fuel(parse_fits, 4);
    reveal_with_fuel(worst_total, 4);
    assert(segments("1x2") =~= seq![Damage { dice: 1, sides: 2 }]);
    let segs = seq![Damage { dice: 1, sides: 2 }];
    assert(segs[0] == Damage { dice: 1, sides: 2 });
    assert(segs[0].dice * segs[0].sides == 2) by (nonlinear_arith)
        requires
            segs[0].dice == 1,
            segs[0].sides == 2,
    ;
    assert forall|j: int| 0 <= j < segs.len() implies #[trigger] segs[j].dice * segs[j].sides <= 30 by {}
    assert(worst_total(segs, 6, 1) == 0);
    assert(worst_total(segs, 6, 0) == 8);
}

/// The segments of '1x2/1x5/1x5'.
proof fn lemma_damage_string_6()
    ensures
        parse_fits("1x2/1x5/1x5"@, 0),
        segments("1x2/1x5/1x5") == seq![Damage { dice: 1, sides: 2 }, Damage { dice: 1, sides: 5 }, Damage { dice: 1, sides: 5 }],
        worst_total(segments("1x2/1x5/1x5"), 6, 0) == 30,
        forall|j: int| 0 <= j < segments("1x2/1x5/1x5").len() ==> (#[trigger] segments("1x2/1x5/1x5")[j]).dice * segments("1x2/1x5/1x5")[j].sides <= 30,
{
    reveal_strlit("1x2/1x5/1x5");
    reveal_with_fuel(atoi_from, 4);
    reveal_with_fuel(find_from, 12);
    reveal_with_fuel(parse_from, 4);
    reveal_with_fuel(parse_fits, 4);
    reveal_with_fuel(worst_total, 4);
    assert(segments("1x2/1x5/1x5") =~= seq![Damage { dice: 1, sides: 2 }, Damage { dice: 1, sides: 5 }, Damage { dice: 1, sides: 5 }]);
    let segs = seq![Damage { dice: 1, sides: 2 }, Damage { dice: 1, sides: 5 }, Damage { dice: 1, sides: 5 }];
    assert(segs[0] == Damage { dice: 1, sides: 2 });
    assert(segs[0].dice * segs[0].sides == 2) by (nonlinear_arith)
        requires
            segs[0].dice == 1,
            segs[0].sides == 2,
    ;
    assert(segs[1] == Damage { dice: 1, sides: 5 });
    assert(segs[1].dice * segs[1].sides == 5) by (nonlinear_arith)
        requires
            segs[1].dice == 1,
            segs[1].sides == 5,
    ;
    assert(segs[2] == Damage { dice: 1, sides: 5 });
    assert(segs[2].dice * segs[2].sides == 5) by (nonlinear_arith)
        requires
            segs[2].dice == 1,
            segs[2].sides == 5,
    ;
    assert forall|j: int| 0 <= j < segs.len() implies #[trigger] segs[j].dice * segs[j].sides <= 30 by {
        if j == 0 {} else if j == 1 {} else {}
    }
    assert(worst_total(segs, 6, 3) == 0);
    assert(worst_total(segs, 6, 2) == 11);
    assert(worst_total(segs, 6, 1) == 22);
    assert(worst_total(segs, 6, 0) == 30);
}

/// The segments of '1x3'.
proof fn lemma_damage_string_7()
    ensures
        parse_fits("1x3"@, 0),
        segments("1x3") == seq![Damage { dice: 1, sides: 3 }],
        worst_total(segments("1x3"), 6, 0) == 9,
        forall|j: int| 0 <= j < segments("1x3").len() ==> (#[trigger] segments("1x3")[j]).dice * segments("1x3")[j].sides <= 30,
{
    reveal_strlit("1x3");
    reveal_with_fuel(atoi_from, 4);
    reveal_with_fuel(find_from, 4);
    reveal_with_fuel(parse_from, 4);
    reveal_with_fuel(parse_fits, 4);
    reveal_with_fuel(worst_total, 4);
    assert(segments("1x3") =~= seq![Damage { dice: 1, sides: 3 }]);
    let segs = seq![Damage { dice: 1, sides: 3 }];
    assert(segs[0] == Damage { dice: 1, sides: 3 });
    assert(segs[0].dice * segs[0].sides == 3) by (nonlinear_arith)
        requires
            segs[0].dice == 1,
            segs[0].sides == 3,
    ;
    assert forall|j: int| 0 <= j < segs.len() implies #[trigger] segs[j].dice * segs[j].sides <= 30 by {}
    assert(worst_total(segs, 6, 1) == 0);
    assert(worst_total(segs, 6, 0) == 9);
}

/// The segments of '1x4'.
proof fn lemma_damage_string_8()
    ensures
        parse_fits("1x4"@, 0),
        segments("1x4") == seq![Damage { dice: 1, sides: 4 }],
        worst_total(segments("1x4"), 6, 0) == 10,
        forall|j: int| 0 <= j < segments("1x4").len() ==> (#[trigger] segments("1x4")[j]).dice * segments("1x4")[j].sides <= 30,
{
    reveal_strlit("1x4");
    reveal_with_fuel(atoi_from, 4);
    reveal_with_fuel(find_from, 4);
    reveal_with_fuel(parse_from, 4);
    reveal_with_fuel(parse_fits, 4);
    reveal_with_fuel(worst_total, 4);
    assert(segments("1x4") =~= seq![Damage { dice: 1, sides: 4 }]);
    let segs = seq![Damage { dice: 1, sides: 4 }];
    assert(segs[0] == Damage { dice: 1, sides: 4 });
    assert(segs[0].dice * segs[0].sides == 4) by (nonlinear_arith)
        requires
            segs[0].dice == 1,
            segs[0].sides == 4,
    ;
    assert forall|j: int| 0 <= j < segs.len() implies #[trigger] segs[j].dice * segs[j].sides <= 30 by {}
    assert(worst_total(segs, 6, 1) == 0);
    assert(worst_total(segs, 6, 0) == 10);
}

/// The segments of '1x5/1x5'.
proof fn lemma_damage_string_9()
    ensures
        parse_fits("1x5/1x5"@, 0),
        segments("1x5/1x5") == seq![Damage { dice: 1, sides: 5 }, Damage { dice: 1, sides: 5 }],
        worst_total(segments("1x5/1x5"), 6, 0) == 22,
        forall|j: int| 0 <= j < segments("1x5/1x5").len() ==> (#[trigger] segments("1x5/1x5")[j]).dice * segments("1x5/1x5")[j].sides <= 30,
{
    reveal_strlit("1x5/1x5");
    reveal_with_fuel(atoi_from, 4);
    reveal_with_fuel(find_from, 8);
    reveal_with_fuel(parse_from, 4);
    reveal_with_fuel(parse_fits, 4);
    reveal_with_fuel(worst_total, 4);
    assert(segments("1x5/1x5") =~= seq![Damage { dice: 1, sides: 5 }, Damage { dice: 1, sides: 5 }]);
    let segs = seq![Damage { dice: 1, sides: 5 }, Damage { dice: 1, sides: 5 }];
    assert(segs[0] == Damage { dice: 1, sides: 5 });
    assert(segs[0].dice * segs[0].sides == 5) by (nonlinear_arith)
        requires
            segs[0].dice == 1,
            segs[0].sides == 5,
    ;
    assert(segs[1] == Damage { dice: 1, sides: 5 });
    assert(segs[1].dice * segs[1].sides == 5) by (nonlinear_arith)
        requires
            segs[1].dice == 1,
            segs[1].sides == 5,
    ;
    assert forall|j: int| 0 <= j < segs.len() implies #[trigger] segs[j].dice * segs[j].sides <= 30 by {
        if j == 0 {} else {}
    }
    assert(worst_total(segs, 6, 2) == 0);
    assert(worst_total(segs, 6, 1) == 11);
    assert(worst_total(segs, 6, 0) == 22);
}

/// The segments of '1x6'.
proof fn lemma_damage_string_10()
    ensures
        parse_fits("1x6"@, 0),
        segments("1x6") == seq![Damage { dice: 1, sides: 6 }],
        worst_total(segments("1x6"), 6, 0) == 12,
        forall|j: int| 0 <= j < segments("1x6").len() ==> (#[trigger] segments("1x6")[j]).dice * segments("1x6")[j].sides <= 30,
{
    reveal_strlit("1x6");
    reveal_with_fuel(atoi_from, 4);
    reveal_with_fuel(find_from, 4);
    reveal_with_fuel(parse_from, 4);
    reveal_with_fuel(parse_fits, 4);
    reveal_with_fuel(worst_total, 4);
    assert(segments("1x6") =~= seq![Damage { dice: 1, sides: 6 }]);
    let segs = seq![Damage { dice: 1, sides: 6 }];
    assert(segs[0] == Damage { dice: 1, sides: 6 });
    assert(segs[0].dice * segs[0].sides == 6) by (nonlinear_arith)
        requires
            segs[0].dice == 1,
            segs[0].sides == 6,
    ;
    assert forall|j: int| 0 <= j < segs.len() implies #[trigger] segs[j].dice * segs[j].sides <= 30 by {}
    assert(worst_total(segs, 6, 1) == 0);
    assert(worst_total(segs, 6, 0) == 12);
}

/// The segments of '1x6/1x6'.
proof fn lemma_damage_string_11()
    ensures
        parse_fits("1x6/1x6"@, 0),
        segments("1x6/1x6") == seq![Damage { dice: 1, sides: 6 }, Damage { dice: 1, sides: 6 }],
        worst_total(segments("1x6/1x6"), 6, 0) == 24,
        forall|j: int| 0 <= j < segments("1x6/1x6").len() ==> (#[trigger] segments("1x6/1x6")[j]).dice * segments("1x6/1x6")[j].sides <= 30,
{
    reveal_strlit("1x6/1x6");
    reveal_with_fuel(atoi_from, 4);
    reveal_with_fuel(find_from, 8);
    reveal_with_fuel(parse_from, 4);
    reveal_with_fuel(parse_fits, 4);
    reveal_with_fuel(worst_total, 4);
    assert(segments("1x6/1x6") =~= seq![Damage { dice: 1, sides: 6 }, Damage { dice: 1, sides: 6 }]);
    let segs = seq![Damage { dice: 1, sides: 6 }, Damage { dice: 1, sides: 6 }];
    assert(segs[0] == Damage { dice: 1, sides: 6 });
    assert(segs[0].dice * segs[0].sides == 6) by (nonlinear_arith)
        requires
            segs[0].dice == 1,
            segs[0].sides == 6,
    ;
    assert(segs[1] == Damage { dice: 1, sides: 6 });
    assert(segs[1].dice * segs[1].sides == 6) by (nonlinear_arith)
        requires
            segs[1].dice == 1,
            segs[1].sides == 6,
    ;
    assert forall|j: int| 0 <= j < segs.len() implies #[trigger] segs[j].dice * segs[j].sides <= 30 by {
        if j == 0 {} else {}
    }
    assert(worst_total(segs, 6, 2) == 0);
    assert(worst_total(segs, 6, 1) == 12);
    assert(worst_total(segs, 6, 0) == 24);
}

/// The segments of '1x8'.
proof fn lemma_damage_string_12()
    ensures
        parse_fits("1x8"@, 0),
        segments("1x8") == seq![Damage { dice: 1, sides: 8 }],
        worst_total(segments("1x8"), 6, 0) == 14,
        forall|j: int| 0 <= j < segments("1x8").len() ==> (#[trigger] segments("1x8")[j]).dice * segments("1x8")[j].sides <= 30,
{
    reveal_strlit("1x8");
    reveal_with_fuel(atoi_from, 4);
    reveal_with_fuel(find_from, 4);
    reveal_with_fuel(parse_from, 4);
    reveal_with_fuel(parse_fits, 4);
    reveal_with_fuel(worst_total, 4);
    assert(segments("1x8") =~= seq![Damage { dice: 1, sides: 8 }]);
    let segs = seq![Damage { dice: 1, sides: 8 }];
    assert(segs[0] == Damage { dice: 1, sides: 8 });
    assert(segs[0].dice * segs[0].sides == 8) by (nonlinear_arith)
        requires
            segs[0].dice == 1,
            segs[0].sides == 8,
    ;
    assert forall|j: int| 0 <= j < segs.len() implies #[trigger] segs[j].dice * segs[j].sides <= 30 by {}
    assert(worst_total(segs, 6, 1) == 0);
    assert(worst_total(segs, 6, 0) == 14);
}

/// The segments of '1x8/1x8/2x6'.
proof fn lemma_damage_string_13()
    ensures
        parse_fits("1x8/1x8/2x6"@, 0),
        segments("1x8/1x8/2x6") == seq![Damage { dice: 1, sides: 8 }, Damage { dice: 1, sides: 8 }, Damage { dice: 2, sides: 6 }],
        worst_total(segments("1x8/1x8/2x6"), 6, 0) == 46,
        forall|j: int| 0 <= j < segments("1x8/1x8/2x6").len() ==> (#[trigger] segments("1x8/1x8/2x6")[j]).dice * segments("1x8/1x8/2x6")[j].sides <= 30,
{
    reveal_strlit("1x8/1x8/2x6");
    reveal_with_fuel(atoi_from, 4);
    reveal_with_fuel(find_from, 12);
    reveal_with_fuel(parse_from, 4);
    reveal_with_fuel(parse_fits, 4);
    reveal_with_fuel(worst_total, 4);
    assert(segments("1x8/1x8/2x6") =~= seq![Damage { dice: 1, sides: 8 }, Damage { dice: 1, sides: 8 }, Damage { dice: 2, sides: 6 }]);
    let segs = seq![Damage { dice: 1, sides: 8 }, Damage { dice: 1, sides: 8 }, Damage { dice: 2, sides: 6 }];
    assert(segs[0] == Damage { dice: 1, sides: 8 });
    assert(segs[0].dice * segs[0].sides == 8) by (nonlinear_arith)
        requires
            segs[0].dice == 1,
            segs[0].sides == 8,
    ;
    assert(segs[1] == Damage { dice: 1, sides: 8 });
    assert(segs[1].dice * segs[1].sides == 8) by (nonlinear_arith)
        requires
            segs[1].dice == 1,
            segs[1].sides == 8,
    ;
    assert(segs[2] == Damage { dice: 2, sides: 6 });
    assert(segs[2].dice * segs[2].sides == 12) by (nonlinear_arith)
        requires
            segs[2].dice == 2,
            segs[2].sides == 6,
    ;
    assert forall|j: int| 0 <= j < segs.len() implies #[trigger] segs[j].dice * segs[j].sides <= 30 by {
        if j == 0 {} else if j == 1 {} else {}
    }
    assert(worst_total(segs, 6, 3) == 0);
    assert(worst_total(segs, 6, 2) == 18);
    assert(worst_total(segs, 6, 1) == 32);
    assert(worst_total(segs, 6, 0) == 46);
}

/// The segments of '1x8/1x8/3x10'.
proof fn lemma_damage_string_14()
    ensures
        parse_fits("1x8/1x8/3x10"@, 0),
        segments("1x8/1x8/3x10") == seq![Damage { dice: 1, sides: 8 }, Damage { dice: 1, sides: 8 }, Damage { dice: 3, sides: 10 }],
        worst_total(segments("1x8/1x8/3x10"), 6, 0) == 64,
        forall|j: int| 0 <= j < segments("1x8/1x8/3x10").len() ==> (#[trigger] segments("1x8/1x8/3x10")[j]).dice * segments("1x8/1x8/3x10")[j].sides <= 30,
{
    reveal_strlit("1x8/1x8/3x10");
    reveal_with_fuel(atoi_from, 4);
    reveal_with_fuel(find_from, 13);
    reveal_with_fuel(parse_from, 4);
    reveal_with_fuel(parse_fits, 4);
    reveal_with_fuel(worst_total, 4);
    assert(segments("1x8/1x8/3x10") =~= seq![Damage { dice: 1, sides: 8 }, Damage { dice: 1, sides: 8 }, Damage { dice: 3, sides: 10 }]);
    let segs = seq![Damage { dice: 1, sides: 8 }, Damage { dice: 1, sides: 8 }, Damage { dice: 3, sides: 10 }];
    assert(segs[0] == Damage { dice: 1, sides: 8 });
    assert(segs[0].dice * segs[0].sides == 8) by (nonlinear_arith)
        requires
            segs[0].dice == 1,
            segs[0].sides == 8,
    ;
    assert(segs[1] == Damage { dice: 1, sides: 8 });
    assert(segs[1].dice * segs[1].sides == 8) by (nonlinear_arith)
        requires
            segs[1].dice == 1,
            segs[1].sides == 8,
    ;
    assert(segs[2] == Damage { dice: 3, sides: 10 });
    assert(segs[2].dice * segs[2].sides == 30) by (nonlinear_arith)
        requires
            segs[2].dice == 3,
            segs[2].sides == 10,
    ;
    assert forall|j: int| 0 <= j < segs.len() implies #[trigger] segs[j].dice * segs[j].sides <= 30 by {
        if j == 0 {} else if j == 1 {} else {}
    }
    assert(worst_total(segs, 6, 3) == 0);
    assert(worst_total(segs, 6, 2) == 36);
    assert(worst_total(segs, 6, 1) == 50);
    assert(worst_total(segs, 6, 0) == 64);
}

/// The segments of '1x9/1x9/2x9'.
proof fn lemma_damage_string_15()
    ensures
        parse_fits("1x9/1x9/2x9"@, 0),
        segments("1x9/1x9/2x9") == seq![Damage { dice: 1, sides: 9 }, Damage { dice: 1, sides: 9 }, Damage { dice: 2, sides: 9 }],
        worst_total(segments("1x9/1x9/2x9"), 6, 0) == 54,
        forall|j: int| 0 <= j < segments("1x9/1x9/2x9").len() ==> (#[trigger] segments("1x9/1x9/2x9")[j]).dice * segments("1x9/1x9/2x9")[j].sides <= 30,
{
    reveal_strlit("1x9/1x9/2x9");
    reveal_with_fuel(atoi_from, 4);
    reveal_with_fuel(find_from, 12);
    reveal_with_fuel(parse_from, 4);
    reveal_with_fuel(parse_fits, 4);
    reveal_with_fuel(worst_total, 4);
    assert(segments("1x9/1x9/2x9") =~= seq![Damage { dice: 1, sides: 9 }, Damage { dice: 1, sides: 9 }, Damage { dice: 2, sides: 9 }]);
    let segs = seq![Damage { dice: 1, sides: 9 }, Damage { dice: 1, sides: 9 }, Damage { dice: 2, sides: 9 }];
    assert(segs[0] == Damage { dice: 1, sides: 9 });
    assert(segs[0].dice * segs[0].sides == 9) by (nonlinear_arith)
        requires
            segs[0].dice == 1,
            segs[0].sides == 9,
    ;
    assert(segs[1] == Damage { dice: 1, sides: 9 });
    assert(segs[1].dice * segs[1].sides == 9) by (nonlinear_arith)
        requires
            segs[1].dice == 1,
            segs[1].sides == 9,
    ;
    assert(segs[2] == Damage { dice: 2, sides: 9 });
    assert(segs[2].dice * segs[2].sides == 18) by (nonlinear_arith)
        requires
            segs[2].dice == 2,
            segs[2].sides == 9,
    ;
    assert forall|j: int| 0 <= j < segs.len() implies #[trigger] segs[j].dice * segs[j].sides <= 30 by {
        if j == 0 {} else if j == 1 {} else {}
    }
    assert(worst_total(segs, 6, 3) == 0);
    assert(worst_total(segs, 6, 2) == 24);
    assert(worst_total(segs, 6, 1) == 39);
    assert(worst_total(segs, 6, 0) == 54);
}

/// The segments of '2x12/2x4'.
proof fn lemma_damage_string_16()
    ensures
        parse_fits("2x12/2x4"@, 0),
        segments("2x12/2x4") == seq![Damage { dice: 2, sides: 12 }, Damage { dice: 2, sides: 4 }],
        worst_total(segments("2x12/2x4"), 6, 0) == 44,
        forall|j: int| 0 <= j < segments("2x12/2x4").len() ==> (#[trigger] segments("2x12/2x4")[j]).dice * segments("2x12/2x4")[j].sides <= 30,
{
    reveal_strlit("2x12/2x4");
    reveal_with_fuel(atoi_from, 4);
    reveal_with_fuel(find_from, 9);
    reveal_with_fuel(parse_from, 4);
    reveal_with_fuel(parse_fits, 4);
    reveal_with_fuel(worst_total, 4);
    assert(segments("2x12/2x4") =~= seq![Damage { dice: 2, sides: 12 }, Damage { dice: 2, sides: 4 }]);
    let segs = seq![Damage { dice: 2, sides: 12 }, Damage { dice: 2, sides: 4 }];
    assert(segs[0] == Damage { dice: 2, sides: 12 });
    assert(segs[0].dice * segs[0].sides == 24) by (nonlinear_arith)
        requires
            segs[0].dice == 2,
            segs[0].sides == 12,
    ;
    assert(segs[1] == Damage { dice: 2, sides: 4 });
    assert(segs[1].dice * segs[1].sides == 8) by (nonlinear_arith)
        requires
            segs[1].dice == 2,
            segs[1].sides == 4,
    ;
    assert forall|j: int| 0 <= j < segs.len() implies #[trigger] segs[j].dice * segs[j].sides <= 30 by {
        if j == 0 {} else {}
    }
    assert(worst_total(segs, 6, 2) == 0);
    assert(worst_total(segs, 6, 1) == 14);
    assert(worst_total(segs, 6, 0) == 44);
}

/// The segments of '3x4/3x4/2x5'.
proof fn lemma_damage_string_17()
    ensures
        parse_fits("3x4/3x4/2x5"@, 0),
        segments("3x4/3x4/2x5") == seq![Damage { dice: 3, sides: 4 }, Damage { dice: 3, sides: 4 }, Damage { dice: 2, sides: 5 }],
        worst_total(segments("3x4/3x4/2x5"), 6, 0) == 52,
        forall|j: int| 0 <= j < segments("3x4/3x4/2x5").len() ==> (#[trigger] segments("3x4/3x4/2x5")[j]).dice * segments("3x4/3x4/2x5")[j].sides <= 30,
{
    reveal_strlit("3x4/3x4/2x5");
    reveal_with_fuel(atoi_from, 4);
    reveal_with_fuel(find_from, 12);
    reveal_with_fuel(parse_from, 4);
    reveal_with_fuel(parse_fits, 4);
    reveal_with_fuel(worst_total, 4);
    assert(segments("3x4/3x4/2x5") =~= seq![Damage { dice: 3, sides: 4 }, Damage { dice: 3, sides: 4 }, Damage { dice: 2, sides: 5 }]);
    let segs = seq![Damage { dice: 3, sides: 4 }, Damage { dice: 3, sides: 4 }, Damage { dice: 2, sides: 5 }];
    assert(segs[0] == Damage { dice: 3, sides: 4 });
    assert(segs[0].dice * segs[0].sides == 12) by (nonlinear_arith)
        requires
            segs[0].dice == 3,
            segs[0].sides == 4,
    ;
    assert(segs[1] == Damage { dice: 3, sides: 4 });
    assert(segs[1].dice * segs[1].sides == 12) by (nonlinear_arith)
        requires
            segs[1].dice == 3,
            segs[1].sides == 4,
    ;
    assert(segs[2] == Damage { dice: 2, sides: 5 });
    assert(segs[2].dice * segs[2].sides == 10) by (nonlinear_arith)
        requires
            segs[2].dice == 2,
            segs[2].sides == 5,
    ;
    assert forall|j: int| 0 <= j < segs.len() implies #[trigger] segs[j].dice * segs[j].sides <= 30 by {
        if j == 0 {} else if j == 1 {} else {}
    }
    assert(worst_total(segs, 6, 3) == 0);
    assert(worst_total(segs, 6, 2) == 16);
    assert(worst_total(segs, 6, 1) == 34);
    assert(worst_total(segs, 6, 0) == 52);
}

/// The segments of '4x3/3x5'.
proof fn lemma_damage_string_18()
    ensures
        parse_fits("4x3/3x5"@, 0),
        segments("4x3/3x5") == seq![Damage { dice: 4, sides: 3 }, Damage { dice: 3, sides: 5 }],
        worst_total(segments("4x3/3x5"), 6, 0) == 39,
        forall|j: int| 0 <= j < segments("4x3/3x5").len() ==> (#[trigger] segments("4x3/3x5")[j]).dice * segments("4x3/3x5")[j].sides <= 30,
{
    reveal_strlit("4x3/3x5");
    reveal_with_fuel(atoi_from, 4);
    reveal_with_fuel(find_from, 8);
    reveal_with_fuel(parse_from, 4);
    reveal_with_fuel(parse_fits, 4);
    reveal_with_fuel(worst_total, 4);
    assert(segments("4x3/3x5") =~= seq![Damage { dice: 4, sides: 3 }, Damage { dice: 3, sides: 5 }]);
    let segs = seq![Damage { dice: 4, sides: 3 }, Damage { dice: 3, sides: 5 }];
    assert(segs[0] == Damage { dice: 4, sides: 3 });
    assert(segs[0].dice * segs[0].sides == 12) by (nonlinear_arith)
        requires
            segs[0].dice == 4,
            segs[0].sides == 3,
    ;
    assert(segs[1] == Damage { dice: 3, sides: 5 });
    assert(segs[1].dice * segs[1].sides == 15) by (nonlinear_arith)
        requires
            segs[1].dice == 3,
            segs[1].sides == 5,
    ;
    assert forall|j: int| 0 <= j < segs.len() implies #[trigger] segs[j].dice * segs[j].sides <= 30 by {
        if j == 0 {} else {}
    }
    assert(worst_total(segs, 6, 2) == 0);
    assert(worst_total(segs, 6, 1) == 21);
    assert(worst_total(segs, 6, 0) == 39);
}

/// The segments of '4x4'.
proof fn lemma_damage_string_19()
    ensures
        parse_fits("4x4"@, 0),
        segments("4x4") == seq![Damage { dice: 4, sides: 4 }],
        worst_total(segments("4x4"), 6, 0) == 22,
        forall|j: int| 0 <= j < segments("4x4").len() ==> (#[trigger] segments("4x4")[j]).dice * segments("4x4")[j].sides <= 30,
{
    reveal_strlit("4x4");
    reveal_with_fuel(atoi_from, 4);
    reveal_with_fuel(find_from, 4);
    reveal_with_fuel(parse_from, 4);
    reveal_with_fuel(parse_fits, 4);
    reveal_with_fuel(worst_total, 4);
    assert(segments("4x4") =~= seq![Damage { dice: 4, sides: 4 }]);
    let segs = seq![Damage { dice: 4, sides: 4 }];
    assert(segs[0] == Damage { dice: 4, sides: 4 });
    assert(segs[0].dice * segs[0].sides == 16) by (nonlinear_arith)
        requires
            segs[0].dice == 4,
            segs[0].sides == 4,
    ;
    assert forall|j: int| 0 <= j < segs.len() implies #[trigger] segs[j].dice * segs[j].sides <= 30 by {}
    assert(worst_total(segs, 6, 1) == 0);
    assert(worst_total(segs, 6, 0) == 22);
}

/// Every damage string of the monster table parses without overflow into at
/// most three segments of at most 30 points each, and one attack sequence
/// deals at most `MAX_MONSTER_DAMAGE` damage.
pub proof fn lemma_table_damage(k: MonsterKind)
    ensures
        parse_fits(rules_of(k).damage@, 0),
        segments(rules_of(k).damage).len() <= 3,
        forall|j: int| 0 <= j < segments(rules_of(k).damage).len() ==> (#[trigger] segments(rules_of(k).damage)[j]).dice * segments(rules_of(k).damage)[j].sides <= 30,
        worst_total(segments(rules_of(k).damage), 6, 0) <= MAX_MONSTER_DAMAGE,
{
    match k {
        MonsterKind::Aquator => lemma_damage_string_2(),
        MonsterKind::Bat => lemma_damage_string_5(),
        MonsterKind::Centaur => lemma_damage_string_6(),
        MonsterKind::Dragon => lemma_damage_string_14(),
        MonsterKind::Emu => lemma_damage_string_5(),
        MonsterKind::Fungus => lemma_damage_string_0(),
        MonsterKind::Giant => lemma_damage_string_18(),
        MonsterKind::Hobgoblin => lemma_damage_string_12(),
        MonsterKind::IceMonster => lemma_damage_string_1(),
        MonsterKind::Jabberwock => lemma_damage_string_16(),
        MonsterKind::Kobold => lemma_damage_string_8(),
        MonsterKind::Leprechaun => lemma_damage_string_3(),
        MonsterKind::Medusa => lemma_damage_string_17(),
        MonsterKind::Naga => lemma_damage_string_1(),
        MonsterKind::Orc => lemma_damage_string_12(),
        MonsterKind::Phantom => lemma_damage_string_19(),
        MonsterKind::Quagga => lemma_damage_string_9(),
        MonsterKind::Rat => lemma_damage_string_10(),
        MonsterKind::Snake => lemma_damage_string_7(),
        MonsterKind::Troll => lemma_damage_string_13(),
        MonsterKind::UrVile => lemma_damage_string_15(),
        MonsterKind::Vampire => lemma_damage_string_4(),
        MonsterKind::Wraith => lemma_damage_string_10(),
        MonsterKind::Xeroc => lemma_damage_string_19(),
        MonsterKind::Yeti => lemma_damage_string_11(),
        MonsterKind::Zombie => lemma_damage_string_12(),
    }
}


// ---------------------------------------------------------------------
// The AFTER phase: runners, doctor, stomach
// ---------------------------------------------------------------------

/// One monster's attack this phase, in the order the monsters were listed.
#[derive(Debug, Clone, Copy, PartialEq, Eq)]
pub struct MonsterAttack {
    pub name: &'static str,
    pub result: HitResult,
}

/// What the AFTER-phase runners daemon did this round.
#[derive(Debug, Clone, PartialEq, Eq)]
pub struct MonsterPhaseReport {
    /// True if any monster swung this phase (drives the quiet counter).
    pub any_attack: bool,
    /// Every attack, in monster order (only monsters that reached the player).
    pub attacks: Vec<MonsterAttack>,
}

impl Default for MonsterPhaseReport {
    fn default() -> (r: Self)
        ensures
            !r.any_attack,
            r.attacks@.len() == 0,
    {
        MonsterPhaseReport { any_attack: false, attacks: Vec::new() }
    }
}

/// The distance between two coordinates.
pub open spec fn gap(a: int, b: int) -> int {
    if a >= b {
        a - b
    } else {
        b - a
    }
}

fn abs_diff(a: usize, b: usize) -> (d: usize)
    ensures
        d == gap(a as int, b as int),
{
    if a >= b {
        a - b
    } else {
        b - a
    }
}

/// Orthogonal adjacency: Manhattan distance exactly 1.
pub open spec fn is_adjacent(m: Monster, p: Player) -> bool {
    gap(m.x as int, p.x as int) + gap(m.y as int, p.y as int) == 1
}

/// Is `monster` orthogonally adjacent to `player`?
pub fn adjacent(monster: &Monster, player: &Player) -> (b: bool)
    ensures
        b == is_adjacent(*monster, *player),
{
    let dx = abs_diff(monster.x, player.x);
    let dy = abs_diff(monster.y, player.y);
    (dx == 1 && dy == 0) || (dx == 0 && dy == 1)
}

/// The Manhattan distance as `distance` computes it: each axis gap taken
/// as a `u32` (truncating), then summed.
pub open spec fn distance_value(m: Monster, p: Player) -> int {
    (gap(m.x as int, p.x as int) as u32) + (gap(m.y as int, p.y as int) as u32)
}

/// The sum in `distance` stays inside `u32`.
pub open spec fn distance_fits(m: Monster, p: Player) -> bool {
    distance_value(m, p) <= u32::MAX
}

/// Manhattan distance between `monster` and `player`.
pub fn distance(monster: &Monster, player: &Player) -> (d: u32)
    requires
        distance_fits(*monster, *player),
    ensures
        d == distance_value(*monster, *player),
{
    let dx = abs_diff(monster.x, player.x) as u32;
    let dy = abs_diff(monster.y, player.y) as u32;
    dx + dy
}

/// A sleeping, living ISMEAN monster: the only kind that can wake on sight.
pub open spec fn may_wake(m: Monster) -> bool {
    m.hp > 0 && !m.running && mean_of(m.kind)
}

/// `wake_monsters` measures the distance of every monster that may wake.
pub open spec fn wake_fits(p: Player, ms: Seq<Monster>) -> bool {
    forall|i: int| 0 <= i < ms.len() && may_wake(#[trigger] ms[i]) ==> distance_fits(ms[i], p)
}

/// The first `n` monsters of `ms` after the wake-up pass from state `s`:
/// each one that may wake and is within sight draws once and wakes on a
/// 2-in-3 chance; the rest draw nothing. Returns the monsters and the state.
pub open spec fn woken(s: u64, p: Player, ms: Seq<Monster>, n: nat) -> (Seq<Monster>, u64)
    decreases n,
{
    if n == 0 || n > ms.len() {
        (ms, s)
    } else {
        let (prev, s1) = woken(s, p, ms, (n - 1) as nat);
        let m = ms[n - 1];
        if may_wake(m) && distance_value(m, p) <= SIGHT_RANGE {
            (
                if chance_value(s1, 2, 3) {
                    prev.update(n - 1, Monster { running: true, ..m })
                } else {
                    prev
                },
                next_state(s1),
            )
        } else {
            (prev, s1)
        }
    }
}

proof fn lemma_woken_frame(s: u64, p: Player, ms: Seq<Monster>, n: nat)
    requires
        n <= ms.len(),
    ensures
        woken(s, p, ms, n).0.len() == ms.len(),
        forall|j: int| n <= j < ms.len() ==> (#[trigger] woken(s, p, ms, n).0[j]) == ms[j],
        forall|j: int|
            0 <= j < ms.len() ==> {
                let w = #[trigger] woken(s, p, ms, n).0[j];
                w == Monster { running: w.running, ..ms[j] }
            },
    decreases n,
{
    if n > 0 {
        lemma_woken_frame(s, p, ms, (n - 1) as nat);
    }
}

/// Only mean monsters wake on sight, and only living ones within sight
/// range; the wake-up pass changes nothing else about any monster.
pub proof fn lemma_only_mean_monsters_wake(s: u64, p: Player, ms: Seq<Monster>, n: nat)
    requires
        n <= ms.len(),
    ensures
        forall|j: int|
            0 <= j < ms.len() ==> {
                let w = #[trigger] woken(s, p, ms, n).0[j];
                &&& w == Monster { running: w.running, ..ms[j] }
                &&& w.running ==> ms[j].running || (mean_of(ms[j].kind) && ms[j].hp > 0 && distance_value(
                    ms[j],
                    p,
                ) <= SIGHT_RANGE)
            },
    decreases n,
{
    lemma_woken_frame(s, p, ms, n);
    if n > 0 {
        lemma_only_mean_monsters_wake(s, p, ms, (n - 1) as nat);
        lemma_woken_frame(s, p, ms, (n - 1) as nat);
    }
}

/// Wake sleeping ISMEAN monsters the player can see: each one within
/// [`SIGHT_RANGE`] wakes with probability 2/3. Only ISMEAN monsters wake
/// and chase; the rest stay put. Monsters the player attacked are woken in
/// [`player_attack`] instead.
pub fn wake_monsters(rng: &mut Rng, player: &Player, monsters: &mut Vec<Monster>)
    requires
        wake_fits(*player, old(monsters)@),
    ensures
        (final(monsters)@, final(rng)@) == woken(old(rng)@, *player, old(monsters)@, old(monsters)@.len()),
{
    let ghost ms0 = monsters@;
    let ghost s0 = rng@;
    let n = monsters.len();
    let mut i: usize = 0;
    while i < n
        invariant
            n == ms0.len(),
            i <= n,
            wake_fits(*player, ms0),
            (monsters@, rng@) == woken(s0, *player, ms0, i as nat),
        decreases n - i,
    {
        proof {
            lemma_woken_frame(s0, *player, ms0, i as nat);
        }
        let m = monsters[i];
        assert(m == ms0[i as int]);
        if m.hp > 0 && !m.running && m.is_mean() {
            if distance(&m, player) <= SIGHT_RANGE {
                if rng.chance(2, 3) {
                    let woke = Monster { running: true, ..m };
                    monsters.set(i, woke);
                } else {
                    proof {
                        assert(monsters@ =~= woken(s0, *player, ms0, (i + 1) as nat).0);
                    }
                }
            }
        }
        i = i + 1;
    }
}

/// `(x, y)` is on the map and walkable.
pub open spec fn open_at(d: Board, x: int, y: int) -> bool {
    d.in_bounds(x, y) && walkable(d.tile_at(x, y))
}

/// The sign of `v`: -1, 0 or 1.
pub open spec fn sign(v: int) -> int {
    if v > 0 {
        1
    } else if v < 0 {
        -1
    } else {
        0
    }
}

/// One chase step of `m` toward `p`: along the axis of greatest separation
/// (horizontal on a tie), else along the other axis, else no move.
pub open spec fn chase_step(d: Board, m: Monster, p: Player) -> Monster {
    let dx = p.x - m.x;
    let dy = p.y - m.y;
    let horizontal = gap(p.x as int, m.x as int) >= gap(p.y as int, m.y as int);
    let (ax, ay) = if horizontal { (sign(dx), 0int) } else { (0int, sign(dy)) };
    let (bx, by) = if horizontal { (0int, sign(dy)) } else { (sign(dx), 0int) };
    if open_at(d, m.x + ax, m.y + ay) {
        Monster { x: (m.x + ax) as usize, y: (m.y + ay) as usize, ..m }
    } else if open_at(d, m.x + bx, m.y + by) {
        Monster { x: (m.x + bx) as usize, y: (m.y + by) as usize, ..m }
    } else {
        m
    }
}

/// A chase step moves the monster one tile toward the player along the
/// axis of greatest separation (horizontal on a tie) when that tile is on
/// the map and walkable; when it is not, one tile toward the player along
/// the other axis when that tile is; otherwise the monster stays. Only its
/// position changes, and a move is always one tile onto an open tile.
pub proof fn lemma_chase_step_law(d: Board, m: Monster, p: Player)
    ensures
        ({
            let c = chase_step(d, m, p);
            let sx = sign(p.x - m.x);
            let sy = sign(p.y - m.y);
            let horizontal = gap(p.x as int, m.x as int) >= gap(p.y as int, m.y as int);
            let first = if horizontal { (m.x + sx, m.y as int) } else { (m.x as int, m.y + sy) };
            let other = if horizontal { (m.x as int, m.y + sy) } else { (m.x + sx, m.y as int) };
            &&& c == Monster { x: c.x, y: c.y, ..m }
            &&& open_at(d, first.0, first.1) ==> c.x == first.0 && c.y == first.1
            &&& !open_at(d, first.0, first.1) && open_at(d, other.0, other.1) ==> c.x == other.0 && c.y == other.1
            &&& !open_at(d, first.0, first.1) && !open_at(d, other.0, other.1) ==> c.x == m.x && c.y == m.y
            &&& (c.x != m.x || c.y != m.y) ==> open_at(d, c.x as int, c.y as int) && gap(c.x as int, m.x as int) + gap(c.y as int, m.y as int) == 1
        }),
{
}

/// The chase arithmetic, done in `i64`, stays in range, and the map has one
/// tile per cell.
pub open spec fn chase_fits(d: Board, m: Monster, p: Player) -> bool {
    &&& d.cells().len() == d.width * d.height
    &&& d.width <= i64::MAX
    &&& d.height <= i64::MAX
    &&& m.x < i64::MAX
    &&& m.y < i64::MAX
    &&& p.x <= i64::MAX
    &&& p.y <= i64::MAX
}

/// The tile one step `(mx, my)` from `(x, y)`, if it is on the map and
/// walkable.
fn open_step(map: &Dungeon, x: i64, y: i64, mx: i64, my: i64) -> (r: Option<(usize, usize)>)
    requires
        map.cells().len() == map.width * map.height,
        map.width <= i64::MAX,
        map.height <= i64::MAX,
        0 <= x < i64::MAX,
        0 <= y < i64::MAX,
        -1 <= mx <= 1,
        -1 <= my <= 1,
    ensures
        r == (if open_at(map@, x + mx, y + my) {
            Some(((x + mx) as usize, (y + my) as usize))
        } else {
            None
        }),
{
    let nx = x + mx;
    let ny = y + my;
    if nx < 0 || ny < 0 || nx >= map.width as i64 || ny >= map.height as i64 {
        return None;
    }
    let ux = nx as usize;
    let uy = ny as usize;
    proof {
        assert(uy * map.width + ux < map.width * map.height) by (nonlinear_arith)
            requires
                ux < map.width,
                uy < map.height,
        ;
    }
    if map.tile(ux, uy).is_walkable() {
        Some((ux, uy))
    } else {
        None
    }
}

/// One chase step: move along the axis of greatest separation toward the
/// player; if that tile is blocked, try the other axis. The caller handles
/// attacks, so this never decides to fight.
pub fn do_chase(map: &Dungeon, monster: &mut Monster, player: &Player)
    requires
        chase_fits(map@, *old(monster), *player),
    ensures
        *final(monster) == chase_step(map@, *old(monster), *player),
{
    let mx = monster.x as i64;
    let my = monster.y as i64;
    let dx = player.x as i64 - mx;
    let dy = player.y as i64 - my;
    let adx = if dx < 0 { -dx } else { dx };
    let ady = if dy < 0 { -dy } else { dy };
    let sx: i64 = if dx > 0 { 1 } else if dx < 0 { -1 } else { 0 };
    let sy: i64 = if dy > 0 { 1 } else if dy < 0 { -1 } else { 0 };
    let horizontal = adx >= ady;
    let (ax, ay) = if horizontal { (sx, 0i64) } else { (0i64, sy) };
    let (bx, by) = if horizontal { (0i64, sy) } else { (sx, 0i64) };
    match open_step(map, mx, my, ax, ay) {
        Some((x, y)) => {
            monster.x = x;
            monster.y = y;
        },
        None => match open_step(map, mx, my, bx, by) {
            Some((x, y)) => {
                monster.x = x;
                monster.y = y;
            },
            None => {},
        },
    }
}

/// What `monster_phase` asks of every monster: its level and the map keep
/// the attack and chase arithmetic in range.
pub open spec fn phase_fits(d: Board, p: Player, ms: Seq<Monster>, player_arm: i32) -> bool {
    &&& wake_fits(p, ms)
    &&& -1000 <= player_arm <= 1000
    &&& p.hp >= i32::MIN + MAX_MONSTER_DAMAGE
    &&& forall|i: int| 0 <= i < ms.len() ==> (#[trigger] ms[i]).level <= 1000
    &&& forall|i: int| 0 <= i < ms.len() ==> chase_fits(d, #[trigger] ms[i], p)
}

/// The first `n` monsters of `ms` take their turn from state `s` against
/// player `p`: every living, running monster attacks when adjacent and
/// chases otherwise. Returns the monsters, the player, the state, and the
/// attacks in order.
pub open spec fn phase_steps(
    d: Board,
    player_arm: i32,
    s: u64,
    p: Player,
    ms: Seq<Monster>,
    n: nat,
) -> (Seq<Monster>, Player, u64, Seq<MonsterAttack>)
    decreases n,
{
    if n == 0 || n > ms.len() {
        (ms, p, s, Seq::empty())
    } else {
        let (ms1, p1, s1, attacks) = phase_steps(d, player_arm, s, p, ms, (n - 1) as nat);
        let m = ms[n - 1];
        if m.hp > 0 && m.running {
            if is_adjacent(m, p1) {
                let (r, p2, s2) = monster_attack_value(s1, m, p1, player_arm);
                (ms1, p2, s2, attacks.push(MonsterAttack { name: rules_name_of(m.kind), result: r }))
            } else {
                (ms1.update(n - 1, chase_step(d, m, p1)), p1, s1, attacks)
            }
        } else {
            (ms1, p1, s1, attacks)
        }
    }
}

/// The whole runners phase from state `s`: the wake-up pass, then every
/// monster's turn in order.
pub open spec fn phase_value(d: Board, player_arm: i32, s: u64, p: Player, ms: Seq<Monster>) -> (Seq<Monster>, Player, u64, Seq<MonsterAttack>) {
    let (ms1, s1) = woken(s, p, ms, ms.len());
    phase_steps(d, player_arm, s1, p, ms1, ms1.len())
}

proof fn lemma_phase_frame(d: Board, player_arm: i32, s: u64, p: Player, ms: Seq<Monster>, n: nat)
    requires
        n <= ms.len(),
    ensures
        phase_steps(d, player_arm, s, p, ms, n).0.len() == ms.len(),
        forall|j: int| n <= j < ms.len() ==> (#[trigger] phase_steps(d, player_arm, s, p, ms, n).0[j]) == ms[j],
    decreases n,
{
    if n > 0 {
        lemma_phase_frame(d, player_arm, s, p, ms, (n - 1) as nat);
    }
}

/// The AFTER-phase runners daemon: wake ISMEAN monsters the player sees,
/// then every running monster chases the player and attacks when adjacent.
/// Returns a report of what happened.
pub fn monster_phase(
    rng: &mut Rng,
    map: &Dungeon,
    player: &mut Player,
    monsters: &mut Vec<Monster>,
    player_arm: i32,
) -> (r: MonsterPhaseReport)
    requires
        phase_fits(map@, *old(player), old(monsters)@, player_arm),
    ensures
        ({
            let (ms, p, s, attacks) = phase_value(map@, player_arm, old(rng)@, *old(player), old(monsters)@);
            &&& final(monsters)@ == ms
            &&& *final(player) == p
            &&& final(rng)@ == s
            &&& r.attacks@ == attacks
            &&& r.any_attack == (attacks.len() > 0)
        }),
{
    let ghost p0 = *player;
    wake_monsters(rng, player, monsters);
    let ghost ms1 = monsters@;
    let ghost s1 = rng@;
    proof {
        lemma_woken_frame(old(rng)@, p0, old(monsters)@, old(monsters)@.len());
        assert forall|j: int| 0 <= j < ms1.len() implies (#[trigger] ms1[j]).level <= 1000
            && chase_fits(map@, ms1[j], p0) by {
            assert(ms1[j] == Monster { running: ms1[j].running, ..old(monsters)@[j] });
        }
    }
    let mut report = MonsterPhaseReport::default();
    let n = monsters.len();
    let mut i: usize = 0;
    while i < n
        invariant
            n == ms1.len(),
            i <= n,
            forall|j: int| 0 <= j < ms1.len() ==> (#[trigger] ms1[j]).level <= 1000,
            forall|j: int| 0 <= j < ms1.len() ==> chase_fits(map@, #[trigger] ms1[j], p0),
            -1000 <= player_arm <= 1000,
            player.hp >= i32::MIN + MAX_MONSTER_DAMAGE,
            player.x == p0.x,
            player.y == p0.y,
            ({
                let (ms, p, s, attacks) = phase_steps(map@, player_arm, s1, p0, ms1, i as nat);
                &&& monsters@ == ms
                &&& *player == p
                &&& rng@ == s
                &&& report.attacks@ == attacks
                &&& report.any_attack == (attacks.len() > 0)
            }),
        decreases n - i,
    {
        proof {
            lemma_phase_frame(map@, player_arm, s1, p0, ms1, i as nat);
        }
        let m = monsters[i];
        assert(m == ms1[i as int]);
        if m.hp > 0 && m.running {
            if adjacent(&m, player) {
                let result = monster_attack(rng, &m, player, player_arm);
                report.any_attack = true;
                report.attacks.push(MonsterAttack { name: m.rules_name(), result });
            } else {
                let mut moved = m;
                do_chase(map, &mut moved, player);
                monsters.set(i, moved);
            }
        }
        i = i + 1;
    }
    report
}

/// What `doctor` heals from state `s`, with the state after: levels 1-7
/// heal 1 once `quiet + 2 * level > 20`; level 8 and up heal
/// `rnd(level - 7) + 1` once `quiet >= 3`; otherwise nothing.
pub open spec fn heal_value(s: u64, p: Player, quiet: u32) -> (int, u64) {
    if p.level < 8 {
        (if quiet + 2 * p.level > 20 { 1int } else { 0int }, s)
    } else if quiet >= 3 {
        let (r, s1) = rnd_value(s, (p.level - 7) as nat);
        (r + 1int, s1)
    } else {
        (0, s)
    }
}

/// `doctor` from state `s`: the healed player (never above max HP) and the
/// state after.
pub open spec fn doctor_value(s: u64, p: Player, quiet: u32) -> (Player, u64) {
    let (heal, s1) = heal_value(s, p, quiet);
    let hp = p.hp + heal;
    (Player { hp: (if hp < p.max_hp { hp } else { p.max_hp as int }) as i32, ..p }, s1)
}

/// The healing arithmetic stays in range.
pub open spec fn doctor_fits(p: Player, quiet: u32) -> bool {
    if p.level < 8 {
        &&& quiet + 2 * p.level <= u32::MAX
        &&& quiet + 2 * p.level > 20 ==> p.hp < i32::MAX
    } else if quiet >= 3 {
        &&& p.level - 7 <= i32::MAX
        &&& p.hp + (p.level - 7) <= i32::MAX
    } else {
        true
    }
}

/// Healing: only the hit points change, and never above the maximum.
/// Below level 8 the player heals exactly one hit point once
/// `quiet + 2 * level > 20`, and none before; from level 8 on, between 1 and
/// `level - 7` once three rounds were quiet, and none before.
pub proof fn lemma_doctor_law(s: u64, p: Player, quiet: u32)
    ensures
        ({
            let q = doctor_value(s, p, quiet).0;
            let rest = if p.hp < p.max_hp { p.hp as int } else { p.max_hp as int };
            &&& q == Player { hp: q.hp, ..p }
            &&& q.hp <= p.max_hp
            &&& (p.level < 8 && quiet + 2 * p.level > 20 && p.hp < p.max_hp ==> q.hp == p.hp + 1)
            &&& (p.level < 8 && quiet + 2 * p.level <= 20 ==> q.hp == rest)
            &&& (p.level >= 8 && quiet >= 3 && p.hp < p.max_hp ==> p.hp + 1 <= q.hp <= p.hp + (p.level - 7))
            &&& (p.level >= 8 && quiet < 3 ==> q.hp == rest)
        }),
{
}

/// AFTER-phase healing: only after enough quiet rounds (combat resets the
/// counter) does the player recover. Levels 1-7 heal +1 once
/// `quiet + 2*level > 20`; level 8+ heals `rnd(level-7)+1` once
/// `quiet >= 3`. Never exceeds max HP.
pub fn doctor(rng: &mut Rng, player: &mut Player, quiet: u32)
    requires
        doctor_fits(*old(player), quiet),
    ensures
        (*final(player), final(rng)@) == doctor_value(old(rng)@, *old(player), quiet),
{
    let heal: i32 = if player.level < 8 {
        if quiet + 2 * player.level > 20 {
            1
        } else {
            0
        }
    } else if quiet >= 3 {
        let r = rnd(rng, player.level - 7);
        r as i32 + 1
    } else {
        0
    };
    let hp = player.hp + heal;
    player.hp = if hp < player.max_hp { hp } else { player.max_hp };
}

/// AFTER-phase hunger: there is no food system yet, so this leaves the
/// player as it is and keeps the round's phase order explicit.
pub fn hunger(player: &mut Player)
    ensures
        *final(player) == *old(player),
{
}


// ---------------------------------------------------------------------
// What a round can change
// ---------------------------------------------------------------------

/// The shape of the player's blow: the monster wakes and loses hit points,
/// or is zeroed by the kill; the player changes only by a kill's
/// experience and the level-ups it brings.
pub proof fn lemma_player_attack_shape(s: u64, p: Player, m: Monster, w: Weapon)
    requires
        player_attack_fits(p, m, w),
    ensures
        ({
            let (r, p2, m2, _) = player_attack_value(s, p, m, w);
            &&& m2 == Monster { running: true, hp: m2.hp, ..m }
            &&& (m2.hp == 0 || (0 < m2.hp <= m.hp))
            &&& p2 == Player {
                experience: p2.experience,
                level: p2.level,
                hp: p2.hp,
                max_hp: p2.max_hp,
                ..p
            }
            &&& (p2.experience == p.experience || p2.experience == p.experience + m.exp)
            &&& (p2.level == p.level || p2.level <= MAX_LEVEL)
            &&& p.hp <= p2.hp <= p.hp + 10 * MAX_LEVEL
            &&& p.max_hp <= p2.max_hp <= p.max_hp + 10 * MAX_LEVEL
        }),
{
    let a = player_attack_spec(p, w);
    let (r, s1) = roll_em_value(s, a, m.armor_class, true);
    lemma_roll_em_bounds(s, a, segments(a.damage), m.armor_class, attack_wplus(a, true), 0, 0, 0);
    let m2 = Monster { running: true, hp: (m.hp - r.damage) as i32, ..m };
    if m2.hp <= 0 {
        let q = Player { experience: (p.experience + m2.exp) as i32, ..p };
        let gained = level_gain(q);
        if gained > 0 {
            lemma_roll_bounds(s1, gained, 10);
            assert(gained <= MAX_LEVEL);
            assert(10 * gained <= 10 * MAX_LEVEL);
        }
    }
}

proof fn lemma_phase_steps_player(d: Board, player_arm: i32, s: u64, p: Player, ms: Seq<Monster>, n: nat)
    ensures
        ({
            let q = phase_steps(d, player_arm, s, p, ms, n).1;
            &&& q == Player { hp: q.hp, ..p }
            &&& q.hp <= if p.hp > 0 { p.hp as int } else { 0int }
        }),
    decreases n,
{
    if n > 0 && n <= ms.len() {
        lemma_phase_steps_player(d, player_arm, s, p, ms, (n - 1) as nat);
        let (ms1, p1, s1, attacks) = phase_steps(d, player_arm, s, p, ms, (n - 1) as nat);
        let m = ms[n - 1];
        if m.hp > 0 && m.running && is_adjacent(m, p1) {
            let a = monster_attack_spec(m);
            lemma_table_damage(m.kind);
            lemma_roll_em_bounds(s1, a, segments(a.damage), player_arm, attack_wplus(a, p1.running), 0, 0, 0);
        }
    }
}

/// The runners phase changes only the player's hit points, and never
/// raises them above zero or their former value.
pub proof fn lemma_phase_player(d: Board, player_arm: i32, s: u64, p: Player, ms: Seq<Monster>)
    ensures
        ({
            let q = phase_value(d, player_arm, s, p, ms).1;
            &&& q == Player { hp: q.hp, ..p }
            &&& q.hp <= if p.hp > 0 { p.hp as int } else { 0int }
        }),
{
    let (ms1, s1) = woken(s, p, ms, ms.len());
    lemma_phase_steps_player(d, player_arm, s1, p, ms1, ms1.len());
}

/// The starting mace's damage string "2x4": one segment of two four-sided
/// dice.
pub proof fn lemma_starting_weapon_damage()
    ensures
        parse_fits(starting_weapon_spec().damage@, 0),
        segments(starting_weapon_spec().damage) == seq![Damage { dice: 2, sides: 4 }],
        worst_total(segments(starting_weapon_spec().damage), starting_weapon_spec().dplus + 6, 0) == 15,
{
    reveal_strlit("2x4");
    reveal_with_fuel(atoi_from, 4);
    reveal_with_fuel(find_from, 4);
    reveal_with_fuel(parse_from, 4);
    reveal_with_fuel(parse_fits, 4);
    reveal_with_fuel(worst_total, 4);
    assert(segments("2x4") =~= seq![Damage { dice: 2, sides: 4 }]);
    let segs = seq![Damage { dice: 2, sides: 4 }];
    assert(segs[0] == Damage { dice: 2, sides: 4 });
    assert(segs[0].dice * segs[0].sides == 8) by (nonlinear_arith)
        requires
            segs[0].dice == 2,
            segs[0].sides == 4,
    ;
    assert(worst_total(segs, 7, 1) == 0);
    assert(worst_total(segs, 7, 0) == 15);
}

/// A chase step keeps the monster's stats and lands it on the map (or
/// leaves it in place).
pub proof fn lemma_chase_step_shape(d: Board, m: Monster, p: Player)
    ensures
        ({
            let c = chase_step(d, m, p);
            &&& c == Monster { x: c.x, y: c.y, ..m }
            &&& (c == m || d.in_bounds(c.x as int, c.y as int))
        }),
{
}

/// A chase step from a tile neither on nor next to the player never lands
/// on the player, and a step taken brings the monster one tile closer.
pub proof fn lemma_chase_never_onto_player(d: Board, m: Monster, p: Player)
    requires
        !is_adjacent(m, p),
        (m.x, m.y) != (p.x, p.y),
    ensures
        ({
            let c = chase_step(d, m, p);
            &&& (c.x, c.y) != (p.x, p.y)
            &&& c != m ==> gap(c.x as int, p.x as int) + gap(c.y as int, p.y as int) + 1 == gap(m.x as int, p.x as int)
                + gap(m.y as int, p.y as int)
        }),
{
}

proof fn lemma_phase_steps_monsters(d: Board, player_arm: i32, s: u64, p: Player, ms: Seq<Monster>, n: nat)
    requires
        n <= ms.len(),
    ensures
        ({
            let r = phase_steps(d, player_arm, s, p, ms, n).0;
            &&& r.len() == ms.len()
            &&& forall|j: int| 0 <= j < ms.len() ==> {
                let m = #[trigger] r[j];
                &&& m == Monster { x: m.x, y: m.y, ..ms[j] }
                &&& (m == ms[j] || d.in_bounds(m.x as int, m.y as int))
            }
        }),
    decreases n,
{
    if n > 0 {
        lemma_phase_steps_monsters(d, player_arm, s, p, ms, (n - 1) as nat);
        lemma_phase_frame(d, player_arm, s, p, ms, (n - 1) as nat);
        let (ms1, p1, s1, attacks) = phase_steps(d, player_arm, s, p, ms, (n - 1) as nat);
        let m = ms[n - 1];
        lemma_chase_step_shape(d, m, p1);
    }
}

/// The runners phase keeps every monster's stats, wakes some, and moves
/// some onto walkable tiles of the map.
pub proof fn lemma_phase_monsters(d: Board, player_arm: i32, s: u64, p: Player, ms: Seq<Monster>)
    ensures
        ({
            let r = phase_value(d, player_arm, s, p, ms).0;
            &&& r.len() == ms.len()
            &&& forall|j: int| 0 <= j < ms.len() ==> {
                let m = #[trigger] r[j];
                &&& m == Monster { x: m.x, y: m.y, running: m.running, ..ms[j] }
                &&& ((m.x == ms[j].x && m.y == ms[j].y) || d.in_bounds(m.x as int, m.y as int))
            }
        }),
{
    let (ms1, s1) = woken(s, p, ms, ms.len());
    lemma_woken_frame(s, p, ms, ms.len());
    lemma_phase_steps_monsters(d, player_arm, s1, p, ms1, ms1.len());
}


// ---------------------------------------------------------------------
// Laws of the player's growth and recovery
// ---------------------------------------------------------------------

/// A level-up adds the same roll, at least one point per level gained and
/// at most ten, to both the current and the maximum hit points, sets the
/// level the experience earns, and never touches strength.
pub proof fn lemma_level_up_shape(p: Player, s: u64)
    requires
        level_up_fits(p),
    ensures
        ({
            let (q, gained, _) = leveled(p, s);
            &&& q.strength == p.strength
            &&& q.experience == p.experience
            &&& q.max_hp - p.max_hp == q.hp - p.hp
            &&& gained <= q.hp - p.hp <= 10 * gained
            &&& gained > 0 ==> q.level == level_for(p.experience as int)
            &&& gained == 0 ==> q == p
        }),
{
    let gained = level_gain(p);
    if gained > 0 {
        lemma_roll_bounds(s, gained, 10);
    }
}

/// Healing needs quiet: below level 8 nothing heals until
/// `quiet + 2 * level` passes 20, from level 8 on nothing heals in the
/// first three quiet rounds. Healing changes only the hit points, never
/// lowers them, and never lifts them past the maximum.
pub proof fn lemma_doctor_shape(s: u64, p: Player, quiet: u32)
    requires
        doctor_fits(p, quiet),
        p.hp <= p.max_hp,
    ensures
        ({
            let q = doctor_value(s, p, quiet).0;
            &&& q == Player { hp: q.hp, ..p }
            &&& p.hp <= q.hp <= p.max_hp
            &&& (p.level < 8 && quiet + 2 * p.level <= 20) ==> q.hp == p.hp
            &&& (p.level >= 8 && quiet < 3) ==> q.hp == p.hp
        }),
{
}

} // verus!
