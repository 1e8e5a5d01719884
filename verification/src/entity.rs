//! Entities: the player, monsters, and the monster tables.
//!
//! There are 26 monsters, one per letter A-Z from aquator to zombie. Their
//! names and canonical stats (hit points, armor class, damage dice,
//! experience) come from the classic 1980 table; what the combat rules read
//! (level, armor class, damage string, experience, the name in messages, and
//! whether they attack on sight) comes from the Rogue 5.4.4 table. Positions
//! are `(x, y)` map coordinates (column, row), matching the map module.

use vstd::prelude::*;
use crate::map::{Board, Dungeon, Room, Tile, present_rooms, in_room, room_fits};
use crate::generate::lemma_index_in;
use crate::text::{push_char, push_str, push_digits, push_decimal, decimal, digits};
use crate::rng::{Rng, below_value, chance_value, next_state};
use crate::combat::{lev_add, exp_add, roll, roll_value, lev_add_value, exp_add_value, lemma_roll_bounds};

verus! {

/// The player's starting hit points (Rogue's `INIT_STATS`: HP 12).
pub const PLAYER_START_HP: i32 = 12;
/// The player's starting strength (Rogue's `INIT_STATS`: STR 16).
pub const PLAYER_START_STRENGTH: i32 = 16;
/// The player starts penniless.
pub const PLAYER_START_GOLD: i32 = 0;
/// A fresh adventurer has no experience.
pub const PLAYER_START_EXPERIENCE: i32 = 0;
/// ...and begins at experience level one.
pub const PLAYER_START_LEVEL: u32 = 1;

/// The player character, `@` on the level.
#[derive(Debug, Clone, Copy, PartialEq, Eq, Structural)]
pub struct Player {
    pub x: usize,
    pub y: usize,
    pub max_hp: i32,
    pub hp: i32,
    pub strength: i32,
    pub gold: i32,
    pub experience: i32,
    pub level: u32,
    /// Awake and able to act. A disabled (sleeping, frozen) defender gives
    /// its attacker a +4 to hit.
    pub running: bool,
}

/// A fresh adventurer at `(x, y)` with the classic starting stats.
pub open spec fn fresh_player(x: usize, y: usize) -> Player {
    Player {
        x,
        y,
        max_hp: PLAYER_START_HP,
        hp: PLAYER_START_HP,
        strength: PLAYER_START_STRENGTH,
        gold: PLAYER_START_GOLD,
        experience: PLAYER_START_EXPERIENCE,
        level: PLAYER_START_LEVEL,
        running: true,
    }
}

impl Player {
    /// A fresh adventurer at `(x, y)` with the classic starting stats.
    pub fn new(x: usize, y: usize) -> (p: Player)
        ensures
            p == fresh_player(x, y),
    {
        Player {
            x,
            y,
            max_hp: PLAYER_START_HP,
            hp: PLAYER_START_HP,
            strength: PLAYER_START_STRENGTH,
            gold: PLAYER_START_GOLD,
            experience: PLAYER_START_EXPERIENCE,
            level: PLAYER_START_LEVEL,
            running: true,
        }
    }

    /// The player's map glyph.
    pub fn symbol(&self) -> (c: char)
        ensures
            c == '@',
    {
        '@'
    }
}

/// Damage dice in Rogue "AxB" notation: `dice` rolls of a `sides`-sided die
/// (`1x4` is 1d4; `0x0` deals nothing).
#[derive(Debug, Clone, Copy, PartialEq, Eq, Hash, Structural)]
pub struct Damage {
    pub dice: u32,
    pub sides: u32,
}

impl Damage {
    pub fn new(dice: u32, sides: u32) -> (d: Damage)
        ensures
            d == (Damage { dice, sides }),
    {
        Damage { dice, sides }
    }

    /// No damage at all ("0x0").
    pub fn none() -> (d: Damage)
        ensures
            d == (Damage { dice: 0, sides: 0 }),
    {
        Damage::new(0, 0)
    }

    /// The dice in "AxB" notation, e.g. `1x8`.
    pub fn notation(&self) -> (out: String)
        ensures
            out@ == digits(self.dice as nat) + "x"@ + digits(self.sides as nat),
    {
        let mut out = String::new();
        push_digits(&mut out, self.dice as u64);
        push_str(&mut out, "x");
        push_digits(&mut out, self.sides as u64);
        out
    }
}

/// The canonical, static stats of one monster kind, from the classic 1980
/// Rogue monster table.
#[derive(Debug, Clone, Copy, PartialEq, Eq, Structural)]
pub struct MonsterStats {
    /// Base hit points, also what a freshly made monster starts with.
    pub hit_points: i32,
    /// Armor class.
    pub armor_class: i32,
    /// Damage dice, e.g. `1x4` for 1d4.
    pub damage: Damage,
    /// Experience awarded for killing it.
    pub exp: i32,
}

/// What the combat rules read of one monster kind, from the Rogue 5.4.4
/// monster table.
#[derive(Debug, Clone, Copy)]
pub struct MonsterRules {
    /// Experience level: the attacker's level in the to-hit roll and the
    /// number of d8 hit dice.
    pub level: u32,
    /// Armor class (lower is better; can be negative).
    pub armor_class: i32,
    /// Damage string: `"AxB"` segments separated by `/`, one per attack.
    pub damage: &'static str,
    /// Base experience awarded for the kill.
    pub exp: i32,
}

/// One of the 26 Rogue monsters, one per letter A-Z, in letter order.
#[derive(Debug, Clone, Copy, PartialEq, Eq, Hash, Structural)]
pub enum MonsterKind {
    Aquator,
    Bat,
    Centaur,
    Dragon,
    Emu,
    Fungus,
    Giant,
    Hobgoblin,
    IceMonster,
    Jabberwock,
    Kobold,
    Leprechaun,
    Medusa,
    Naga,
    Orc,
    Phantom,
    Quagga,
    Rat,
    Snake,
    Troll,
    UrVile,
    Vampire,
    Wraith,
    Xeroc,
    Yeti,
    Zombie,
}

/// The kind's position in letter order: 0 for 'A' ... 25 for 'Z'.
pub open spec fn kind_index(k: MonsterKind) -> nat {
    match k {
        MonsterKind::Aquator => 0,
        MonsterKind::Bat => 1,
        MonsterKind::Centaur => 2,
        MonsterKind::Dragon => 3,
        MonsterKind::Emu => 4,
        MonsterKind::Fungus => 5,
        MonsterKind::Giant => 6,
        MonsterKind::Hobgoblin => 7,
        MonsterKind::IceMonster => 8,
        MonsterKind::Jabberwock => 9,
        MonsterKind::Kobold => 10,
        MonsterKind::Leprechaun => 11,
        MonsterKind::Medusa => 12,
        MonsterKind::Naga => 13,
        MonsterKind::Orc => 14,
        MonsterKind::Phantom => 15,
        MonsterKind::Quagga => 16,
        MonsterKind::Rat => 17,
        MonsterKind::Snake => 18,
        MonsterKind::Troll => 19,
        MonsterKind::UrVile => 20,
        MonsterKind::Vampire => 21,
        MonsterKind::Wraith => 22,
        MonsterKind::Xeroc => 23,
        MonsterKind::Yeti => 24,
        MonsterKind::Zombie => 25,
    }
}

/// The kind at position `i` of letter order.
pub open spec fn kind_at(i: int) -> MonsterKind {
    if i == 0 { MonsterKind::Aquator }
    else if i == 1 { MonsterKind::Bat }
    else if i == 2 { MonsterKind::Centaur }
    else if i == 3 { MonsterKind::Dragon }
    else if i == 4 { MonsterKind::Emu }
    else if i == 5 { MonsterKind::Fungus }
    else if i == 6 { MonsterKind::Giant }
    else if i == 7 { MonsterKind::Hobgoblin }
    else if i == 8 { MonsterKind::IceMonster }
    else if i == 9 { MonsterKind::Jabberwock }
    else if i == 10 { MonsterKind::Kobold }
    else if i == 11 { MonsterKind::Leprechaun }
    else if i == 12 { MonsterKind::Medusa }
    else if i == 13 { MonsterKind::Naga }
    else if i == 14 { MonsterKind::Orc }
    else if i == 15 { MonsterKind::Phantom }
    else if i == 16 { MonsterKind::Quagga }
    else if i == 17 { MonsterKind::Rat }
    else if i == 18 { MonsterKind::Snake }
    else if i == 19 { MonsterKind::Troll }
    else if i == 20 { MonsterKind::UrVile }
    else if i == 21 { MonsterKind::Vampire }
    else if i == 22 { MonsterKind::Wraith }
    else if i == 23 { MonsterKind::Xeroc }
    else if i == 24 { MonsterKind::Yeti }
    else { MonsterKind::Zombie }
}

/// The kind's letter, 'A'..='Z'.
pub open spec fn letter_of(k: MonsterKind) -> char {
    ('A' as int + kind_index(k)) as char
}

/// The classic lowercase name, e.g. "ur-vile".
pub open spec fn name_of(k: MonsterKind) -> &'static str {
    match k {
        MonsterKind::Aquator => "aquator",
        MonsterKind::Bat => "bat",
        MonsterKind::Centaur => "centaur",
        MonsterKind::Dragon => "dragon",
        MonsterKind::Emu => "emu",
        MonsterKind::Fungus => "fungus",
        MonsterKind::Giant => "giant",
        MonsterKind::Hobgoblin => "hobgoblin",
        MonsterKind::IceMonster => "ice monster",
        MonsterKind::Jabberwock => "jabberwock",
        MonsterKind::Kobold => "kobold",
        MonsterKind::Leprechaun => "leprechaun",
        MonsterKind::Medusa => "medusa",
        MonsterKind::Naga => "naga",
        MonsterKind::Orc => "orc",
        MonsterKind::Phantom => "phantom",
        MonsterKind::Quagga => "quagga",
        MonsterKind::Rat => "rat",
        MonsterKind::Snake => "snake",
        MonsterKind::Troll => "troll",
        MonsterKind::UrVile => "ur-vile",
        MonsterKind::Vampire => "vampire",
        MonsterKind::Wraith => "wraith",
        MonsterKind::Xeroc => "xeroc",
        MonsterKind::Yeti => "yeti",
        MonsterKind::Zombie => "zombie",
    }
}

/// The 1980 table row: hit points, armor class, damage dice, experience.
pub open spec fn stats_of(k: MonsterKind) -> MonsterStats {
    match k {
        MonsterKind::Aquator => MonsterStats { hit_points: 8, armor_class: 4, damage: Damage { dice: 1, sides: 2 }, exp: 4 },
        MonsterKind::Bat => MonsterStats { hit_points: 1, armor_class: 1, damage: Damage { dice: 1, sides: 2 }, exp: 1 },
        MonsterKind::Centaur => MonsterStats { hit_points: 9, armor_class: 6, damage: Damage { dice: 1, sides: 4 }, exp: 2 },
        MonsterKind::Dragon => MonsterStats { hit_points: 16, armor_class: 10, damage: Damage { dice: 3, sides: 4 }, exp: 8 },
        MonsterKind::Emu => MonsterStats { hit_points: 5, armor_class: 4, damage: Damage { dice: 1, sides: 2 }, exp: 1 },
        MonsterKind::Fungus => MonsterStats { hit_points: 7, armor_class: 2, damage: Damage { dice: 0, sides: 0 }, exp: 1 },
        MonsterKind::Giant => MonsterStats { hit_points: 12, armor_class: 8, damage: Damage { dice: 2, sides: 4 }, exp: 4 },
        MonsterKind::Hobgoblin => MonsterStats { hit_points: 3, armor_class: 4, damage: Damage { dice: 1, sides: 8 }, exp: 1 },
        MonsterKind::IceMonster => MonsterStats { hit_points: 6, armor_class: 6, damage: Damage { dice: 0, sides: 1 }, exp: 2 },
        MonsterKind::Jabberwock => MonsterStats { hit_points: 13, armor_class: 10, damage: Damage { dice: 2, sides: 10 }, exp: 7 },
        MonsterKind::Kobold => MonsterStats { hit_points: 4, armor_class: 4, damage: Damage { dice: 1, sides: 4 }, exp: 1 },
        MonsterKind::Leprechaun => MonsterStats { hit_points: 8, armor_class: 8, damage: Damage { dice: 1, sides: 4 }, exp: 3 },
        MonsterKind::Medusa => MonsterStats { hit_points: 9, armor_class: 9, damage: Damage { dice: 2, sides: 4 }, exp: 3 },
        MonsterKind::Naga => MonsterStats { hit_points: 9, armor_class: 6, damage: Damage { dice: 1, sides: 4 }, exp: 2 },
        MonsterKind::Orc => MonsterStats { hit_points: 5, armor_class: 5, damage: Damage { dice: 1, sides: 8 }, exp: 2 },
        MonsterKind::Phantom => MonsterStats { hit_points: 7, armor_class: 6, damage: Damage { dice: 1, sides: 4 }, exp: 2 },
        MonsterKind::Quagga => MonsterStats { hit_points: 6, armor_class: 6, damage: Damage { dice: 2, sides: 4 }, exp: 2 },
        MonsterKind::Rat => MonsterStats { hit_points: 1, armor_class: 4, damage: Damage { dice: 1, sides: 4 }, exp: 1 },
        MonsterKind::Snake => MonsterStats { hit_points: 4, armor_class: 4, damage: Damage { dice: 1, sides: 4 }, exp: 2 },
        MonsterKind::Troll => MonsterStats { hit_points: 11, armor_class: 8, damage: Damage { dice: 2, sides: 4 }, exp: 3 },
        MonsterKind::UrVile => MonsterStats { hit_points: 13, armor_class: 8, damage: Damage { dice: 2, sides: 4 }, exp: 6 },
        MonsterKind::Vampire => MonsterStats { hit_points: 12, armor_class: 10, damage: Damage { dice: 1, sides: 8 }, exp: 6 },
        MonsterKind::Wraith => MonsterStats { hit_points: 13, armor_class: 10, damage: Damage { dice: 2, sides: 4 }, exp: 6 },
        MonsterKind::Xeroc => MonsterStats { hit_points: 9, armor_class: 7, damage: Damage { dice: 1, sides: 4 }, exp: 3 },
        MonsterKind::Yeti => MonsterStats { hit_points: 10, armor_class: 8, damage: Damage { dice: 2, sides: 4 }, exp: 3 },
        MonsterKind::Zombie => MonsterStats { hit_points: 6, armor_class: 6, damage: Damage { dice: 1, sides: 8 }, exp: 2 },
    }
}

/// The kind's name in the Rogue 5.4.4 table, which combat messages use.
pub open spec fn rules_name_of(k: MonsterKind) -> &'static str {
    match k {
        MonsterKind::Aquator => "aquator",
        MonsterKind::Bat => "bat",
        MonsterKind::Centaur => "centaur",
        MonsterKind::Dragon => "dragon",
        MonsterKind::Emu => "emu",
        MonsterKind::Fungus => "venus flytrap",
        MonsterKind::Giant => "griffin",
        MonsterKind::Hobgoblin => "hobgoblin",
        MonsterKind::IceMonster => "ice monster",
        MonsterKind::Jabberwock => "jabberwock",
        MonsterKind::Kobold => "kestrel",
        MonsterKind::Leprechaun => "leprechaun",
        MonsterKind::Medusa => "medusa",
        MonsterKind::Naga => "nymph",
        MonsterKind::Orc => "orc",
        MonsterKind::Phantom => "phantom",
        MonsterKind::Quagga => "quagga",
        MonsterKind::Rat => "rattlesnake",
        MonsterKind::Snake => "snake",
        MonsterKind::Troll => "troll",
        MonsterKind::UrVile => "black unicorn",
        MonsterKind::Vampire => "vampire",
        MonsterKind::Wraith => "wraith",
        MonsterKind::Xeroc => "xeroc",
        MonsterKind::Yeti => "yeti",
        MonsterKind::Zombie => "zombie",
    }
}

/// Does the kind attack on sight (Rogue's ISMEAN)? Only these wake and
/// chase the player when they see them.
pub open spec fn mean_of(k: MonsterKind) -> bool {
    match k {
        MonsterKind::Aquator => true,
        MonsterKind::Dragon => true,
        MonsterKind::Emu => true,
        MonsterKind::Fungus => true,
        MonsterKind::Giant => true,
        MonsterKind::Hobgoblin => true,
        MonsterKind::Kobold => true,
        MonsterKind::Medusa => true,
        MonsterKind::Quagga => true,
        MonsterKind::Rat => true,
        MonsterKind::Snake => true,
        MonsterKind::Troll => true,
        MonsterKind::UrVile => true,
        MonsterKind::Vampire => true,
        MonsterKind::Zombie => true,
        _ => false,
    }
}

/// The Rogue 5.4.4 row: level, armor class, damage string, experience.
pub open spec fn rules_of(k: MonsterKind) -> MonsterRules {
    match k {
        MonsterKind::Aquator => MonsterRules { level: 5, armor_class: 2, damage: "0x0/0x0", exp: 20 },
        MonsterKind::Bat => MonsterRules { level: 1, armor_class: 3, damage: "1x2", exp: 1 },
        MonsterKind::Centaur => MonsterRules { level: 4, armor_class: 4, damage: "1x2/1x5/1x5", exp: 17 },
        MonsterKind::Dragon => MonsterRules { level: 10, armor_class: -1i32, damage: "1x8/1x8/3x10", exp: 5000 },
        MonsterKind::Emu => MonsterRules { level: 1, armor_class: 7, damage: "1x2", exp: 2 },
        MonsterKind::Fungus => MonsterRules { level: 8, armor_class: 3, damage: "%%%x0", exp: 80 },
        MonsterKind::Giant => MonsterRules { level: 13, armor_class: 2, damage: "4x3/3x5", exp: 2000 },
        MonsterKind::Hobgoblin => MonsterRules { level: 1, armor_class: 5, damage: "1x8", exp: 3 },
        MonsterKind::IceMonster => MonsterRules { level: 1, armor_class: 9, damage: "0x0", exp: 5 },
        MonsterKind::Jabberwock => MonsterRules { level: 15, armor_class: 6, damage: "2x12/2x4", exp: 3000 },
        MonsterKind::Kobold => MonsterRules { level: 1, armor_class: 7, damage: "1x4", exp: 1 },
        MonsterKind::Leprechaun => MonsterRules { level: 3, armor_class: 8, damage: "1x1", exp: 10 },
        MonsterKind::Medusa => MonsterRules { level: 8, armor_class: 2, damage: "3x4/3x4/2x5", exp: 200 },
        MonsterKind::Naga => MonsterRules { level: 3, armor_class: 9, damage: "0x0", exp: 37 },
        MonsterKind::Orc => MonsterRules { level: 1, armor_class: 6, damage: "1x8", exp: 5 },
        MonsterKind::Phantom => MonsterRules { level: 8, armor_class: 3, damage: "4x4", exp: 120 },
        MonsterKind::Quagga => MonsterRules { level: 3, armor_class: 3, damage: "1x5/1x5", exp: 15 },
        MonsterKind::Rat => MonsterRules { level: 2, armor_class: 3, damage: "1x6", exp: 9 },
        MonsterKind::Snake => MonsterRules { level: 1, armor_class: 5, damage: "1x3", exp: 2 },
        MonsterKind::Troll => MonsterRules { level: 6, armor_class: 4, damage: "1x8/1x8/2x6", exp: 120 },
        MonsterKind::UrVile => MonsterRules { level: 7, armor_class: -2i32, damage: "1x9/1x9/2x9", exp: 190 },
        MonsterKind::Vampire => MonsterRules { level: 8, armor_class: 1, damage: "1x10", exp: 350 },
        MonsterKind::Wraith => MonsterRules { level: 5, armor_class: 4, damage: "1x6", exp: 55 },
        MonsterKind::Xeroc => MonsterRules { level: 7, armor_class: 7, damage: "4x4", exp: 100 },
        MonsterKind::Yeti => MonsterRules { level: 4, armor_class: 6, damage: "1x6/1x6", exp: 50 },
        MonsterKind::Zombie => MonsterRules { level: 2, armor_class: 8, damage: "1x8", exp: 6 },
    }
}

impl MonsterKind {
    /// All 26 kinds in letter order: index 0 = 'A' (aquator) ... 25 = 'Z'
    /// (zombie).
    pub const ALL: [MonsterKind; 26] = [
        MonsterKind::Aquator,
        MonsterKind::Bat,
        MonsterKind::Centaur,
        MonsterKind::Dragon,
        MonsterKind::Emu,
        MonsterKind::Fungus,
        MonsterKind::Giant,
        MonsterKind::Hobgoblin,
        MonsterKind::IceMonster,
        MonsterKind::Jabberwock,
        MonsterKind::Kobold,
        MonsterKind::Leprechaun,
        MonsterKind::Medusa,
        MonsterKind::Naga,
        MonsterKind::Orc,
        MonsterKind::Phantom,
        MonsterKind::Quagga,
        MonsterKind::Rat,
        MonsterKind::Snake,
        MonsterKind::Troll,
        MonsterKind::UrVile,
        MonsterKind::Vampire,
        MonsterKind::Wraith,
        MonsterKind::Xeroc,
        MonsterKind::Yeti,
        MonsterKind::Zombie,
    ];

    /// The kind at position `i` of letter order.
    pub fn from_index(i: usize) -> (k: MonsterKind)
        requires
            i < 26,
        ensures
            k == kind_at(i as int),
            kind_index(k) == i,
    {
        if i == 0 { MonsterKind::Aquator }
        else if i == 1 { MonsterKind::Bat }
        else if i == 2 { MonsterKind::Centaur }
        else if i == 3 { MonsterKind::Dragon }
        else if i == 4 { MonsterKind::Emu }
        else if i == 5 { MonsterKind::Fungus }
        else if i == 6 { MonsterKind::Giant }
        else if i == 7 { MonsterKind::Hobgoblin }
        else if i == 8 { MonsterKind::IceMonster }
        else if i == 9 { MonsterKind::Jabberwock }
        else if i == 10 { MonsterKind::Kobold }
        else if i == 11 { MonsterKind::Leprechaun }
        else if i == 12 { MonsterKind::Medusa }
        else if i == 13 { MonsterKind::Naga }
        else if i == 14 { MonsterKind::Orc }
        else if i == 15 { MonsterKind::Phantom }
        else if i == 16 { MonsterKind::Quagga }
        else if i == 17 { MonsterKind::Rat }
        else if i == 18 { MonsterKind::Snake }
        else if i == 19 { MonsterKind::Troll }
        else if i == 20 { MonsterKind::UrVile }
        else if i == 21 { MonsterKind::Vampire }
        else if i == 22 { MonsterKind::Wraith }
        else if i == 23 { MonsterKind::Xeroc }
        else if i == 24 { MonsterKind::Yeti }
        else { MonsterKind::Zombie }
    }

    /// The kind's position in letter order.
    pub fn index(self) -> (i: usize)
        ensures
            i == kind_index(self),
    {
        match self {
            MonsterKind::Aquator => 0,
            MonsterKind::Bat => 1,
            MonsterKind::Centaur => 2,
            MonsterKind::Dragon => 3,
            MonsterKind::Emu => 4,
            MonsterKind::Fungus => 5,
            MonsterKind::Giant => 6,
            MonsterKind::Hobgoblin => 7,
            MonsterKind::IceMonster => 8,
            MonsterKind::Jabberwock => 9,
            MonsterKind::Kobold => 10,
            MonsterKind::Leprechaun => 11,
            MonsterKind::Medusa => 12,
            MonsterKind::Naga => 13,
            MonsterKind::Orc => 14,
            MonsterKind::Phantom => 15,
            MonsterKind::Quagga => 16,
            MonsterKind::Rat => 17,
            MonsterKind::Snake => 18,
            MonsterKind::Troll => 19,
            MonsterKind::UrVile => 20,
            MonsterKind::Vampire => 21,
            MonsterKind::Wraith => 22,
            MonsterKind::Xeroc => 23,
            MonsterKind::Yeti => 24,
            MonsterKind::Zombie => 25,
        }
    }

    /// The kind whose letter is `c`, e.g. `from_letter('K') == Some(Kobold)`;
    /// `None` for anything but an uppercase ASCII letter.
    pub fn from_letter(c: char) -> (k: Option<MonsterKind>)
        ensures
            k == (if 'A' <= c <= 'Z' { Some(kind_at(c as int - 'A' as int)) } else { None::<MonsterKind> }),
    {
        if 'A' <= c && c <= 'Z' {
            let i = (c as u32 - 'A' as u32) as usize;
            Some(MonsterKind::from_index(i))
        } else {
            None
        }
    }

    /// This kind's letter, 'A'..='Z'.
    pub fn letter(self) -> (c: char)
        ensures
            c == letter_of(self),
            'A' <= c <= 'Z',
    {
        let i = self.index();
        let code = 65u8 + i as u8;
        code as char
    }

    /// The classic lowercase name, e.g. "ur-vile".
    pub fn name(self) -> (s: &'static str)
        ensures
            s == name_of(self),
    {
        match self {
            MonsterKind::Aquator => "aquator",
            MonsterKind::Bat => "bat",
            MonsterKind::Centaur => "centaur",
            MonsterKind::Dragon => "dragon",
            MonsterKind::Emu => "emu",
            MonsterKind::Fungus => "fungus",
            MonsterKind::Giant => "giant",
            MonsterKind::Hobgoblin => "hobgoblin",
            MonsterKind::IceMonster => "ice monster",
            MonsterKind::Jabberwock => "jabberwock",
            MonsterKind::Kobold => "kobold",
            MonsterKind::Leprechaun => "leprechaun",
            MonsterKind::Medusa => "medusa",
            MonsterKind::Naga => "naga",
            MonsterKind::Orc => "orc",
            MonsterKind::Phantom => "phantom",
            MonsterKind::Quagga => "quagga",
            MonsterKind::Rat => "rat",
            MonsterKind::Snake => "snake",
            MonsterKind::Troll => "troll",
            MonsterKind::UrVile => "ur-vile",
            MonsterKind::Vampire => "vampire",
            MonsterKind::Wraith => "wraith",
            MonsterKind::Xeroc => "xeroc",
            MonsterKind::Yeti => "yeti",
            MonsterKind::Zombie => "zombie",
        }
    }

    /// The canonical stats from the classic 1980 monster table.
    pub fn stats(self) -> (s: MonsterStats)
        ensures
            s == stats_of(self),
    {
        match self {
            MonsterKind::Aquator => MonsterStats { hit_points: 8, armor_class: 4, damage: Damage { dice: 1, sides: 2 }, exp: 4 },
            MonsterKind::Bat => MonsterStats { hit_points: 1, armor_class: 1, damage: Damage { dice: 1, sides: 2 }, exp: 1 },
            MonsterKind::Centaur => MonsterStats { hit_points: 9, armor_class: 6, damage: Damage { dice: 1, sides: 4 }, exp: 2 },
            MonsterKind::Dragon => MonsterStats { hit_points: 16, armor_class: 10, damage: Damage { dice: 3, sides: 4 }, exp: 8 },
            MonsterKind::Emu => MonsterStats { hit_points: 5, armor_class: 4, damage: Damage { dice: 1, sides: 2 }, exp: 1 },
            MonsterKind::Fungus => MonsterStats { hit_points: 7, armor_class: 2, damage: Damage { dice: 0, sides: 0 }, exp: 1 },
            MonsterKind::Giant => MonsterStats { hit_points: 12, armor_class: 8, damage: Damage { dice: 2, sides: 4 }, exp: 4 },
            MonsterKind::Hobgoblin => MonsterStats { hit_points: 3, armor_class: 4, damage: Damage { dice: 1, sides: 8 }, exp: 1 },
            MonsterKind::IceMonster => MonsterStats { hit_points: 6, armor_class: 6, damage: Damage { dice: 0, sides: 1 }, exp: 2 },
            MonsterKind::Jabberwock => MonsterStats { hit_points: 13, armor_class: 10, damage: Damage { dice: 2, sides: 10 }, exp: 7 },
            MonsterKind::Kobold => MonsterStats { hit_points: 4, armor_class: 4, damage: Damage { dice: 1, sides: 4 }, exp: 1 },
            MonsterKind::Leprechaun => MonsterStats { hit_points: 8, armor_class: 8, damage: Damage { dice: 1, sides: 4 }, exp: 3 },
            MonsterKind::Medusa => MonsterStats { hit_points: 9, armor_class: 9, damage: Damage { dice: 2, sides: 4 }, exp: 3 },
            MonsterKind::Naga => MonsterStats { hit_points: 9, armor_class: 6, damage: Damage { dice: 1, sides: 4 }, exp: 2 },
            MonsterKind::Orc => MonsterStats { hit_points: 5, armor_class: 5, damage: Damage { dice: 1, sides: 8 }, exp: 2 },
            MonsterKind::Phantom => MonsterStats { hit_points: 7, armor_class: 6, damage: Damage { dice: 1, sides: 4 }, exp: 2 },
            MonsterKind::Quagga => MonsterStats { hit_points: 6, armor_class: 6, damage: Damage { dice: 2, sides: 4 }, exp: 2 },
            MonsterKind::Rat => MonsterStats { hit_points: 1, armor_class: 4, damage: Damage { dice: 1, sides: 4 }, exp: 1 },
            MonsterKind::Snake => MonsterStats { hit_points: 4, armor_class: 4, damage: Damage { dice: 1, sides: 4 }, exp: 2 },
            MonsterKind::Troll => MonsterStats { hit_points: 11, armor_class: 8, damage: Damage { dice: 2, sides: 4 }, exp: 3 },
            MonsterKind::UrVile => MonsterStats { hit_points: 13, armor_class: 8, damage: Damage { dice: 2, sides: 4 }, exp: 6 },
            MonsterKind::Vampire => MonsterStats { hit_points: 12, armor_class: 10, damage: Damage { dice: 1, sides: 8 }, exp: 6 },
            MonsterKind::Wraith => MonsterStats { hit_points: 13, armor_class: 10, damage: Damage { dice: 2, sides: 4 }, exp: 6 },
            MonsterKind::Xeroc => MonsterStats { hit_points: 9, armor_class: 7, damage: Damage { dice: 1, sides: 4 }, exp: 3 },
            MonsterKind::Yeti => MonsterStats { hit_points: 10, armor_class: 8, damage: Damage { dice: 2, sides: 4 }, exp: 3 },
            MonsterKind::Zombie => MonsterStats { hit_points: 6, armor_class: 6, damage: Damage { dice: 1, sides: 8 }, exp: 2 },
        }
    }

    /// The kind's name in combat messages (Rogue 5.4.4), e.g. "black unicorn".
    pub fn rules_name(self) -> (s: &'static str)
        ensures
            s == rules_name_of(self),
    {
        match self {
            MonsterKind::Aquator => "aquator",
            MonsterKind::Bat => "bat",
            MonsterKind::Centaur => "centaur",
            MonsterKind::Dragon => "dragon",
            MonsterKind::Emu => "emu",
            MonsterKind::Fungus => "venus flytrap",
            MonsterKind::Giant => "griffin",
            MonsterKind::Hobgoblin => "hobgoblin",
            MonsterKind::IceMonster => "ice monster",
            MonsterKind::Jabberwock => "jabberwock",
            MonsterKind::Kobold => "kestrel",
            MonsterKind::Leprechaun => "leprechaun",
            MonsterKind::Medusa => "medusa",
            MonsterKind::Naga => "nymph",
            MonsterKind::Orc => "orc",
            MonsterKind::Phantom => "phantom",
            MonsterKind::Quagga => "quagga",
            MonsterKind::Rat => "rattlesnake",
            MonsterKind::Snake => "snake",
            MonsterKind::Troll => "troll",
            MonsterKind::UrVile => "black unicorn",
            MonsterKind::Vampire => "vampire",
            MonsterKind::Wraith => "wraith",
            MonsterKind::Xeroc => "xeroc",
            MonsterKind::Yeti => "yeti",
            MonsterKind::Zombie => "zombie",
        }
    }

    /// Does this kind attack on sight (Rogue's ISMEAN)?
    pub fn is_mean(self) -> (b: bool)
        ensures
            b == mean_of(self),
    {
        match self {
            MonsterKind::Aquator => true,
            MonsterKind::Dragon => true,
            MonsterKind::Emu => true,
            MonsterKind::Fungus => true,
            MonsterKind::Giant => true,
            MonsterKind::Hobgoblin => true,
            MonsterKind::Kobold => true,
            MonsterKind::Medusa => true,
            MonsterKind::Quagga => true,
            MonsterKind::Rat => true,
            MonsterKind::Snake => true,
            MonsterKind::Troll => true,
            MonsterKind::UrVile => true,
            MonsterKind::Vampire => true,
            MonsterKind::Zombie => true,
            _ => false,
        }
    }

    /// What the combat rules read of this kind, from the Rogue 5.4.4 table.
    pub fn rules(self) -> (s: MonsterRules)
        ensures
            s == rules_of(self),
    {
        match self {
            MonsterKind::Aquator => MonsterRules { level: 5, armor_class: 2, damage: "0x0/0x0", exp: 20 },
            MonsterKind::Bat => MonsterRules { level: 1, armor_class: 3, damage: "1x2", exp: 1 },
            MonsterKind::Centaur => MonsterRules { level: 4, armor_class: 4, damage: "1x2/1x5/1x5", exp: 17 },
            MonsterKind::Dragon => MonsterRules { level: 10, armor_class: -1, damage: "1x8/1x8/3x10", exp: 5000 },
            MonsterKind::Emu => MonsterRules { level: 1, armor_class: 7, damage: "1x2", exp: 2 },
            MonsterKind::Fungus => MonsterRules { level: 8, armor_class: 3, damage: "%%%x0", exp: 80 },
            MonsterKind::Giant => MonsterRules { level: 13, armor_class: 2, damage: "4x3/3x5", exp: 2000 },
            MonsterKind::Hobgoblin => MonsterRules { level: 1, armor_class: 5, damage: "1x8", exp: 3 },
            MonsterKind::IceMonster => MonsterRules { level: 1, armor_class: 9, damage: "0x0", exp: 5 },
            MonsterKind::Jabberwock => MonsterRules { level: 15, armor_class: 6, damage: "2x12/2x4", exp: 3000 },
            MonsterKind::Kobold => MonsterRules { level: 1, armor_class: 7, damage: "1x4", exp: 1 },
            MonsterKind::Leprechaun => MonsterRules { level: 3, armor_class: 8, damage: "1x1", exp: 10 },
            MonsterKind::Medusa => MonsterRules { level: 8, armor_class: 2, damage: "3x4/3x4/2x5", exp: 200 },
            MonsterKind::Naga => MonsterRules { level: 3, armor_class: 9, damage: "0x0", exp: 37 },
            MonsterKind::Orc => MonsterRules { level: 1, armor_class: 6, damage: "1x8", exp: 5 },
            MonsterKind::Phantom => MonsterRules { level: 8, armor_class: 3, damage: "4x4", exp: 120 },
            MonsterKind::Quagga => MonsterRules { level: 3, armor_class: 3, damage: "1x5/1x5", exp: 15 },
            MonsterKind::Rat => MonsterRules { level: 2, armor_class: 3, damage: "1x6", exp: 9 },
            MonsterKind::Snake => MonsterRules { level: 1, armor_class: 5, damage: "1x3", exp: 2 },
            MonsterKind::Troll => MonsterRules { level: 6, armor_class: 4, damage: "1x8/1x8/2x6", exp: 120 },
            MonsterKind::UrVile => MonsterRules { level: 7, armor_class: -2, damage: "1x9/1x9/2x9", exp: 190 },
            MonsterKind::Vampire => MonsterRules { level: 8, armor_class: 1, damage: "1x10", exp: 350 },
            MonsterKind::Wraith => MonsterRules { level: 5, armor_class: 4, damage: "1x6", exp: 55 },
            MonsterKind::Xeroc => MonsterRules { level: 7, armor_class: 7, damage: "4x4", exp: 100 },
            MonsterKind::Yeti => MonsterRules { level: 4, armor_class: 6, damage: "1x6/1x6", exp: 50 },
            MonsterKind::Zombie => MonsterRules { level: 2, armor_class: 8, damage: "1x8", exp: 6 },
        }
    }

    /// A uniformly random kind.
    pub fn random(rng: &mut Rng) -> (k: MonsterKind)
        ensures
            k == kind_at(below_value(old(rng)@, 26) as int),
            final(rng)@ == next_state(old(rng)@),
    {
        MonsterKind::from_index(rng.below(26))
    }
}


/// The deepest floor a monster can be spawned for while its experience still
/// fits in `i32`.
pub const MAX_SPAWN_FLOOR: u32 = 10_000_000;

/// A monster on the current level: which kind, where, and its current
/// (rolled and depth-scaled) stats.
#[derive(Debug, Clone, Copy, PartialEq, Eq, Structural)]
pub struct Monster {
    pub kind: MonsterKind,
    pub x: usize,
    pub y: usize,
    pub hp: i32,
    pub max_hp: i32,
    pub level: u32,
    pub armor_class: i32,
    pub exp: i32,
    /// Awake and chasing the player. Freshly spawned monsters are asleep.
    pub running: bool,
}

/// The monster `Monster::spawn(kind, x, y, floor, ..)` builds from state
/// `s`: the rules row raised by `lev_add` levels below the Amulet floor, hit
/// points `roll(level, 8)`, one notch better armor per extra level, and
/// experience `base + 10 * lev_add + exp_add`. Returns it with the next
/// state.
pub open spec fn spawned(kind: MonsterKind, x: usize, y: usize, floor: u32, s: u64) -> (Monster, u64) {
    let base = rules_of(kind);
    let add = lev_add_value(floor);
    let level = base.level + add;
    let (hp, s2) = roll_value(s, level as nat, 8);
    (
        Monster {
            kind,
            x,
            y,
            hp: hp as i32,
            max_hp: hp as i32,
            level: level as u32,
            armor_class: (base.armor_class - add) as i32,
            exp: (base.exp + add * 10 + exp_add_value(level, hp)) as i32,
            running: false,
        },
        s2,
    )
}

/// The monster `Monster::new(kind, x, y)` builds: the 1980 table's hit
/// points, and the rules table's level, armor class and experience for the
/// combat code, asleep.
pub open spec fn fresh_monster(kind: MonsterKind, x: usize, y: usize) -> Monster {
    let base = rules_of(kind);
    Monster {
        kind,
        x,
        y,
        hp: stats_of(kind).hit_points,
        max_hp: stats_of(kind).hit_points,
        level: base.level,
        armor_class: base.armor_class,
        exp: base.exp,
        running: false,
    }
}

/// How a placed monster is made from state `s`: with no depth, straight
/// from the table (`Monster::new`, no roll); on a floor, spawned for it
/// (`Monster::spawn`). Returns it with the next state.
pub open spec fn made(kind: MonsterKind, x: usize, y: usize, depth: Option<u32>, s: u64) -> (Monster, u64) {
    match depth {
        None => (fresh_monster(kind, x, y), s),
        Some(floor) => spawned(kind, x, y, floor, s),
    }
}

impl Monster {
    /// Make `kind` at `(x, y)` at full hit points, from the table.
    pub fn new(kind: MonsterKind, x: usize, y: usize) -> (m: Monster)
        ensures
            m == fresh_monster(kind, x, y),
    {
        let base = kind.rules();
        let hp = kind.stats().hit_points;
        Monster {
            kind,
            x,
            y,
            hp,
            max_hp: hp,
            level: base.level,
            armor_class: base.armor_class,
            exp: base.exp,
            running: false,
        }
    }

    /// Spawn `kind` at `(x, y)` on `floor`: roll its hit points and scale
    /// it for depth. Freshly spawned monsters are asleep.
    pub fn spawn(kind: MonsterKind, x: usize, y: usize, floor: u32, rng: &mut Rng) -> (m: Monster)
        requires
            floor <= MAX_SPAWN_FLOOR,
        ensures
            (m, final(rng)@) == spawned(kind, x, y, floor, old(rng)@),
    {
        let base = kind.rules();
        let add = lev_add(floor);
        proof {
            assert(base.level <= 15 && -2 <= base.armor_class && base.exp <= 5000);
        }
        let level = base.level + add;
        let ghost s0 = rng@;
        let hp = roll(rng, level, 8);
        proof {
            lemma_roll_bounds(s0, level as nat, 8);
            assert(0 <= hp <= level * 8);
        }
        let exp = base.exp + (add as i32) * 10 + exp_add(level, hp);
        Monster {
            kind,
            x,
            y,
            hp,
            max_hp: hp,
            level,
            armor_class: base.armor_class - add as i32,
            exp,
            running: false,
        }
    }

    /// The kind's classic name.
    pub fn name(&self) -> (s: &'static str)
        ensures
            s == name_of(self.kind),
    {
        self.kind.name()
    }

    /// The kind's name in combat messages.
    pub fn rules_name(&self) -> (s: &'static str)
        ensures
            s == rules_name_of(self.kind),
    {
        self.kind.rules_name()
    }

    /// The kind's armor class in the 1980 table.
    pub fn armor_class(&self) -> (a: i32)
        ensures
            a == stats_of(self.kind).armor_class,
    {
        self.kind.stats().armor_class
    }

    /// The kind's damage dice in the 1980 table.
    pub fn damage(&self) -> (d: Damage)
        ensures
            d == stats_of(self.kind).damage,
    {
        self.kind.stats().damage
    }

    /// The experience the 1980 table awards for the kill.
    pub fn exp_value(&self) -> (e: i32)
        ensures
            e == stats_of(self.kind).exp,
    {
        self.kind.stats().exp
    }

    /// The monster's map glyph: its kind's letter.
    pub fn symbol(&self) -> (c: char)
        ensures
            c == letter_of(self.kind),
    {
        self.kind.letter()
    }

    /// The monster's damage string, from the rules table.
    pub fn damage_string(&self) -> (s: &'static str)
        ensures
            s == rules_of(self.kind).damage,
    {
        self.kind.rules().damage
    }

    /// Does the monster attack on sight?
    pub fn is_mean(&self) -> (b: bool)
        ensures
            b == mean_of(self.kind),
    {
        self.kind.is_mean()
    }
}


/// Everything placed on one generated level.
#[derive(Debug, Clone, PartialEq, Eq)]
pub struct Spawn {
    pub player: Player,
    pub monsters: Vec<Monster>,
}

/// Can a monster be placed at `(x, y)`: a floor tile nobody stands on?
pub open spec fn free_spot(cells: Seq<Tile>, w: int, blocked: Seq<(usize, usize)>, x: int, y: int) -> bool {
    cells[y * w + x] == Tile::Floor && !blocked.contains((x as usize, y as usize))
}

/// The free spots of row `y` of room `r`, columns `r.x0..x`, left to right.
pub open spec fn free_in_row(cells: Seq<Tile>, w: int, r: Room, blocked: Seq<(usize, usize)>, y: int, x: int) -> Seq<(usize, usize)>
    decreases x - r.x0,
{
    if x <= r.x0 {
        Seq::empty()
    } else {
        let p = free_in_row(cells, w, r, blocked, y, x - 1);
        if free_spot(cells, w, blocked, x - 1, y) {
            p.push(((x - 1) as usize, y as usize))
        } else {
            p
        }
    }
}

/// The free spots of rows `r.y0..y` of room `r`, in row-major order.
pub open spec fn free_in_rows(cells: Seq<Tile>, w: int, r: Room, blocked: Seq<(usize, usize)>, y: int) -> Seq<(usize, usize)>
    decreases y - r.y0,
{
    if y <= r.y0 {
        Seq::empty()
    } else {
        free_in_rows(cells, w, r, blocked, y - 1) + free_in_row(cells, w, r, blocked, y - 1, r.x1 + 1)
    }
}

/// The free spots of room `r`, in row-major order.
pub open spec fn free_in_room(cells: Seq<Tile>, w: int, r: Room, blocked: Seq<(usize, usize)>) -> Seq<(usize, usize)> {
    free_in_rows(cells, w, r, blocked, r.y1 + 1)
}

/// Monsters for `rooms[i..]`: each room holds one with probability three in
/// four, on a random free spot, of a random kind, made as `made` says for
/// `depth`. Returns the monsters and the state.
pub open spec fn place_monsters(
    cells: Seq<Tile>,
    w: int,
    rooms: Seq<Room>,
    depth: Option<u32>,
    blocked: Seq<(usize, usize)>,
    monsters: Seq<Monster>,
    s: u64,
    i: int,
) -> (Seq<Monster>, u64)
    decreases rooms.len() - i,
{
    if i < 0 || i >= rooms.len() {
        (monsters, s)
    } else {
        let s1 = next_state(s);
        if !chance_value(s, 3, 4) {
            place_monsters(cells, w, rooms, depth, blocked, monsters, s1, i + 1)
        } else {
            let free = free_in_room(cells, w, rooms[i], blocked);
            if free.len() == 0 {
                place_monsters(cells, w, rooms, depth, blocked, monsters, s1, i + 1)
            } else {
                let spot = free[below_value(s1, free.len()) as int];
                let s2 = next_state(s1);
                let kind = kind_at(below_value(s2, 26) as int);
                let (m, s4) = made(kind, spot.0, spot.1, depth, next_state(s2));
                place_monsters(cells, w, rooms, depth, blocked.push(spot), monsters.push(m), s4, i + 1)
            }
        }
    }
}

/// Where the player starts: the center of the first room, or `(1, 1)` on a
/// map without rooms.
pub open spec fn start_spot(rooms: Seq<Room>) -> (usize, usize) {
    if rooms.len() > 0 {
        (((rooms[0].x0 + rooms[0].x1) / 2) as usize, ((rooms[0].y0 + rooms[0].y1) / 2) as usize)
    } else {
        (1, 1)
    }
}

/// What `populate` places on a level from state `s`: the player, the
/// monsters, and the state after.
pub open spec fn populated(cells: Seq<Tile>, w: int, slots: Seq<Option<Room>>, depth: Option<u32>, s: u64) -> (Player, Seq<Monster>, u64) {
    let rooms = present_rooms(slots);
    let (px, py) = start_spot(rooms);
    let (monsters, s2) = place_monsters(cells, w, rooms, depth, seq![(px, py)], Seq::empty(), s, 0);
    (fresh_player(px, py), monsters, s2)
}

/// Where a monster stands.
pub open spec fn spot_of(m: Monster) -> (usize, usize) {
    (m.x, m.y)
}

/// `blocked` lists the player's start and then each monster's tile, and no
/// tile twice: nobody shares a tile.
pub open spec fn spots_apart(start: (usize, usize), blocked: Seq<(usize, usize)>, monsters: Seq<Monster>) -> bool {
    &&& blocked == seq![start] + monsters.map_values(|m: Monster| spot_of(m))
    &&& blocked.no_duplicates()
}

/// Each monster placed for `rooms[i..]` stands on a floor tile inside one
/// of the rooms, and all of them, with the player, stand apart.
proof fn lemma_place_monsters_apart(
    cells: Seq<Tile>,
    w: int,
    rooms: Seq<Room>,
    depth: Option<u32>,
    start: (usize, usize),
    blocked: Seq<(usize, usize)>,
    monsters: Seq<Monster>,
    s: u64,
    i: int,
)
    requires
        0 <= i,
        spots_apart(start, blocked, monsters),
        forall|k: int| 0 <= k < monsters.len() ==> {
            let m = #[trigger] monsters[k];
            &&& cells[m.y * w + m.x] == Tile::Floor
            &&& exists|j: int| 0 <= j < rooms.len() && in_room(#[trigger] rooms[j], m.x as int, m.y as int)
        },
        depth is None ==> forall|k: int| 0 <= k < monsters.len() ==> #[trigger] monsters[k] == fresh_monster(monsters[k].kind, monsters[k].x, monsters[k].y),
    ensures
        ({
            let (ms, _) = place_monsters(cells, w, rooms, depth, blocked, monsters, s, i);
            &&& exists|b: Seq<(usize, usize)>| #[trigger] spots_apart(start, b, ms)
            &&& forall|k: int| 0 <= k < ms.len() ==> {
                let m = #[trigger] ms[k];
                &&& cells[m.y * w + m.x] == Tile::Floor
                &&& exists|j: int| 0 <= j < rooms.len() && in_room(#[trigger] rooms[j], m.x as int, m.y as int)
            }
            &&& depth is None ==> forall|k: int| 0 <= k < ms.len() ==> #[trigger] ms[k] == fresh_monster(ms[k].kind, ms[k].x, ms[k].y)
        }),
    decreases rooms.len() - i,
{
    if i < rooms.len() {
        let s1 = next_state(s);
        if !chance_value(s, 3, 4) {
            lemma_place_monsters_apart(cells, w, rooms, depth, start, blocked, monsters, s1, i + 1);
        } else {
            let free = free_in_room(cells, w, rooms[i], blocked);
            if free.len() == 0 {
                lemma_place_monsters_apart(cells, w, rooms, depth, start, blocked, monsters, s1, i + 1);
            } else {
                let spot = free[below_value(s1, free.len()) as int];
                let s2 = next_state(s1);
                let kind = kind_at(below_value(s2, 26) as int);
                crate::levels::lemma_free_in_room_sound(cells, w, rooms[i], blocked);
                let (m, s4) = made(kind, spot.0, spot.1, depth, next_state(s2));
                let ms2 = monsters.push(m);
                let b2 = blocked.push(spot);
                assert(spot_of(m) == spot);
                assert(b2 =~= seq![start] + ms2.map_values(|m: Monster| spot_of(m)));
                assert(b2.no_duplicates()) by {
                    assert(!blocked.contains(spot));
                    assert forall|x: int, y: int| 0 <= x < b2.len() && 0 <= y < b2.len() && x != y implies b2[x] != b2[y] by {
                        if x == blocked.len() {
                            assert(blocked.contains(b2[y]));
                        } else if y == blocked.len() {
                            assert(blocked.contains(b2[x]));
                        }
                    }
                }
                assert forall|k: int| 0 <= k < ms2.len() implies {
                    let mm = #[trigger] ms2[k];
                    &&& cells[mm.y * w + mm.x] == Tile::Floor
                    &&& exists|j: int| 0 <= j < rooms.len() && in_room(#[trigger] rooms[j], mm.x as int, mm.y as int)
                } by {
                    if k < monsters.len() {
                        assert(ms2[k] == monsters[k]);
                    } else {
                        assert(ms2[k] == m);
                        assert(in_room(rooms[i], m.x as int, m.y as int));
                    }
                }
                lemma_place_monsters_apart(cells, w, rooms, depth, start, b2, ms2, s4, i + 1);
            }
        }
    }
}

/// A populated level: the player stands on a floor tile of the first room,
/// and every monster on a floor tile inside one of the rooms, never on the
/// player's tile and never on another monster's; monsters made from the
/// table have its hit points.
pub proof fn lemma_spawn_valid(b: Board, depth: Option<u32>, s: u64)
    requires
        b.wf(),
        present_rooms(b.slots()).len() > 0,
    ensures
        ({
            let (p, ms, _) = populated(b.cells(), b.width as int, b.slots(), depth, s);
            let rooms = present_rooms(b.slots());
            &&& in_room(rooms[0], p.x as int, p.y as int)
            &&& b.tile_at(p.x as int, p.y as int) == Tile::Floor
            &&& forall|k: int| 0 <= k < ms.len() ==> {
                let m = #[trigger] ms[k];
                &&& b.tile_at(m.x as int, m.y as int) == Tile::Floor
                &&& exists|j: int| 0 <= j < rooms.len() && in_room(#[trigger] rooms[j], m.x as int, m.y as int)
                &&& (m.x, m.y) != (p.x, p.y)
            }
            &&& forall|j: int, k: int| 0 <= j < k < ms.len() ==> (ms[j].x, ms[j].y) != (ms[k].x, ms[k].y)
            &&& depth is None ==> forall|k: int| 0 <= k < ms.len() ==> (#[trigger] ms[k]).hp == stats_of(ms[k].kind).hit_points
        }),
{
    let rooms = present_rooms(b.slots());
    let cells = b.cells();
    let w = b.width as int;
    lemma_rooms_fit(b);
    assert(room_fits(rooms[0], w, b.height as int));
    let start = start_spot(rooms);
    assert(in_room(rooms[0], start.0 as int, start.1 as int));
    let blocked = seq![start];
    assert(spots_apart(start, blocked, Seq::empty())) by {
        assert(blocked =~= seq![start] + Seq::<Monster>::empty().map_values(|m: Monster| spot_of(m)));
    }
    lemma_place_monsters_apart(cells, w, rooms, depth, start, blocked, Seq::empty(), s, 0);
    let (p, ms, _) = populated(cells, w, b.slots(), depth, s);
    let bl = choose|bl: Seq<(usize, usize)>| #[trigger] spots_apart(start, bl, ms);
    assert forall|k: int| 0 <= k < ms.len() implies (#[trigger] ms[k]).x != p.x || ms[k].y != p.y by {
        assert(bl[k + 1] == spot_of(ms[k]));
        assert(bl[0] == start);
    }
    assert forall|j: int, k: int| 0 <= j < k < ms.len() implies (ms[j].x, ms[j].y) != (ms[k].x, ms[k].y) by {
        assert(bl[j + 1] == spot_of(ms[j]));
        assert(bl[k + 1] == spot_of(ms[k]));
    }
}

/// Every room in the list is one of the recorded slots.
pub proof fn lemma_present_rooms(slots: Seq<Option<Room>>)
    ensures
        forall|i: int| 0 <= i < present_rooms(slots).len() ==> exists|c: int| 0 <= c < slots.len() && #[trigger] slots[c] == Some(#[trigger] present_rooms(slots)[i]),
        present_rooms(slots).len() <= slots.len(),
    decreases slots.len(),
{
    if slots.len() > 0 {
        lemma_present_rooms(slots.drop_last());
        let rest = present_rooms(slots.drop_last());
        assert forall|i: int| 0 <= i < present_rooms(slots).len() implies exists|c: int| 0 <= c < slots.len() && #[trigger] slots[c] == Some(#[trigger] present_rooms(slots)[i]) by {
            if i < rest.len() {
                let c = choose|c: int| 0 <= c < slots.drop_last().len() && #[trigger] slots.drop_last()[c] == Some(rest[i]);
                assert(slots[c] == Some(present_rooms(slots)[i]));
            } else {
                assert(slots[slots.len() - 1] == Some(present_rooms(slots)[i]));
            }
        }
    }
}

/// The rooms of a well-formed dungeon fit its map.
pub proof fn lemma_rooms_fit(d: Board)
    requires
        d.wf(),
    ensures
        forall|i: int| 0 <= i < present_rooms(d.slots()).len() ==> crate::map::room_fits(#[trigger] present_rooms(d.slots())[i], d.width as int, d.height as int),
        forall|i: int, x: int, y: int| #![trigger present_rooms(d.slots())[i], d.tile_at(x, y)] 0 <= i < present_rooms(d.slots()).len() && in_room(present_rooms(d.slots())[i], x, y) ==> d.tile_at(x, y) == Tile::Floor,
{
    lemma_present_rooms(d.slots());
    assert forall|i: int| 0 <= i < present_rooms(d.slots()).len() implies crate::map::room_fits(#[trigger] present_rooms(d.slots())[i], d.width as int, d.height as int) by {
        let c = choose|c: int| 0 <= c < d.slots().len() && #[trigger] d.slots()[c] == Some(present_rooms(d.slots())[i]);
    }
    assert forall|i: int, x: int, y: int| #![trigger present_rooms(d.slots())[i], d.tile_at(x, y)] 0 <= i < present_rooms(d.slots()).len() && in_room(present_rooms(d.slots())[i], x, y) implies d.tile_at(x, y) == Tile::Floor by {
        let c = choose|c: int| 0 <= c < d.slots().len() && #[trigger] d.slots()[c] == Some(present_rooms(d.slots())[i]);
    }
}

pub(crate) fn contains_spot(blocked: &Vec<(usize, usize)>, x: usize, y: usize) -> (b: bool)
    ensures
        b == blocked@.contains((x, y)),
{
    let mut i: usize = 0;
    while i < blocked.len()
        invariant
            i <= blocked@.len(),
            forall|j: int| 0 <= j < i ==> #[trigger] blocked@[j] != (x, y),
        decreases blocked@.len() - i,
    {
        let (bx, by) = blocked[i];
        if bx == x && by == y {
            assert(blocked@[i as int] == (x, y));
            return true;
        }
        i = i + 1;
    }
    false
}

/// This room's free spots (floor tiles nobody stands on), row-major.
pub(crate) fn free_spots(dungeon: &Dungeon, room: &Room, blocked: &Vec<(usize, usize)>) -> (free: Vec<(usize, usize)>)
    requires
        dungeon.cells().len() == dungeon.width * dungeon.height,
        crate::map::room_fits(*room, dungeon.width as int, dungeon.height as int),
    ensures
        free@ == free_in_room(dungeon.cells(), dungeon.width as int, *room, blocked@),
{
    let mut free: Vec<(usize, usize)> = Vec::new();
    let mut y = room.y0;
    while y <= room.y1
        invariant
            dungeon.cells().len() == dungeon.width * dungeon.height,
            crate::map::room_fits(*room, dungeon.width as int, dungeon.height as int),
            room.y0 <= y <= room.y1 + 1,
            free@ == free_in_rows(dungeon.cells(), dungeon.width as int, *room, blocked@, y as int),
        decreases room.y1 + 1 - y,
    {
        let ghost before = free@;
        let mut x = room.x0;
        while x <= room.x1
            invariant
                dungeon.cells().len() == dungeon.width * dungeon.height,
                crate::map::room_fits(*room, dungeon.width as int, dungeon.height as int),
                room.y0 <= y <= room.y1,
                room.x0 <= x <= room.x1 + 1,
                free@ == before + free_in_row(dungeon.cells(), dungeon.width as int, *room, blocked@, y as int, x as int),
            decreases room.x1 + 1 - x,
        {
            proof {
                lemma_index_in(dungeon.width as int, dungeon.height as int, x as int, y as int);
            }
            if dungeon.tile(x, y) == Tile::Floor && !contains_spot(blocked, x, y) {
                free.push((x, y));
            }
            x = x + 1;
            assert(free@ =~= before + free_in_row(dungeon.cells(), dungeon.width as int, *room, blocked@, y as int, x as int));
        }
        y = y + 1;
    }
    free
}

/// The player and monsters for `dungeon`, each monster made as `made`
/// says for `depth`.
fn populate_with(dungeon: &Dungeon, depth: Option<u32>, rng: &mut Rng) -> (sp: Spawn)
    requires
        dungeon.wf(),
        depth matches Some(f) ==> f <= MAX_SPAWN_FLOOR,
    ensures
        (sp.player, sp.monsters@, final(rng)@) == populated(dungeon.cells(), dungeon.width as int, dungeon.slots(), depth, old(rng)@),
{
    let rooms = dungeon.rooms();
    proof {
        lemma_rooms_fit(dungeon@);
        if rooms@.len() > 0 {
            let w = dungeon.width as int;
            let h = dungeon.height as int;
            assert(dungeon.tiles@.len() == dungeon.tiles.len());
            assert(crate::map::room_fits(rooms@[0], w, h));
            assert(w * h >= 2 * w && w * h >= 2 * h) by (nonlinear_arith)
                requires
                    h >= 2,
                    w >= 2,
            ;
        }
    }
    let (px, py) = if rooms.len() > 0 {
        rooms[0].center()
    } else {
        (1, 1)
    };
    let player = Player::new(px, py);
    let mut blocked: Vec<(usize, usize)> = Vec::new();
    blocked.push((px, py));
    let mut monsters: Vec<Monster> = Vec::new();
    let ghost target = place_monsters(dungeon.cells(), dungeon.width as int, rooms@, depth, seq![(px, py)], Seq::empty(), old(rng)@, 0);
    assert(blocked@ =~= seq![(px, py)]);
    assert(monsters@ =~= Seq::<Monster>::empty());
    let mut i: usize = 0;
    while i < rooms.len()
        invariant
            i <= rooms@.len(),
            dungeon.wf(),
            depth matches Some(f) ==> f <= MAX_SPAWN_FLOOR,
            rooms@ == present_rooms(dungeon.slots()),
            forall|k: int| 0 <= k < rooms@.len() ==> crate::map::room_fits(#[trigger] rooms@[k], dungeon.width as int, dungeon.height as int),
            place_monsters(dungeon.cells(), dungeon.width as int, rooms@, depth, blocked@, monsters@, rng@, i as int) == target,
        decreases rooms@.len() - i,
    {
        let room = rooms[i];
        if rng.chance(3, 4) {
            let free = free_spots(dungeon, &room, &blocked);
            if free.len() > 0 {
                let spot = free[rng.below(free.len())];
                let kind = MonsterKind::random(rng);
                let m = match depth {
                    Some(floor) => Monster::spawn(kind, spot.0, spot.1, floor, rng),
                    None => Monster::new(kind, spot.0, spot.1),
                };
                blocked.push(spot);
                monsters.push(m);
            }
        }
        i = i + 1;
    }
    Spawn { player, monsters }
}

/// The player, and the monsters that `place_monsters` builds, taken from
/// the table: each starts at the table's hit points.
proof fn lemma_populated_fresh(cells: Seq<Tile>, w: int, slots: Seq<Option<Room>>, s: u64)
    ensures
        ({
            let ms = populated(cells, w, slots, None, s).1;
            forall|k: int| 0 <= k < ms.len() ==> (#[trigger] ms[k]).hp == stats_of(ms[k].kind).hit_points
        }),
{
    let rooms = present_rooms(slots);
    let start = start_spot(rooms);
    let blocked = seq![start];
    assert(spots_apart(start, blocked, Seq::empty())) by {
        assert(blocked =~= seq![start] + Seq::<Monster>::empty().map_values(|m: Monster| spot_of(m)));
    }
    lemma_place_monsters_apart(cells, w, rooms, None, start, blocked, Seq::empty(), s, 0);
}

/// Place the player and monsters on a generated level, each monster made
/// from the table at its hit points.
///
/// The player starts at the center of the first room. Each room has a
/// three-in-four chance of holding one monster; monsters land on room floor
/// tiles only, never on the player's tile and never on each other. All rolls
/// come from `rng`, so the same seed yields the same level and the same
/// spawn.
pub fn populate(dungeon: &Dungeon, rng: &mut Rng) -> (sp: Spawn)
    requires
        dungeon.wf(),
    ensures
        (sp.player, sp.monsters@, final(rng)@) == populated(dungeon.cells(), dungeon.width as int, dungeon.slots(), None, old(rng)@),
        forall|k: int| 0 <= k < sp.monsters@.len() ==> (#[trigger] sp.monsters@[k]).hp == stats_of(sp.monsters@[k].kind).hit_points,
{
    proof {
        lemma_populated_fresh(dungeon.cells(), dungeon.width as int, dungeon.slots(), rng@);
    }
    populate_with(dungeon, None, rng)
}

/// Place the player and monsters on `floor` of a game: as `populate`, but
/// each monster is spawned for the floor, its hit points rolled and its
/// stats scaled for depth.
pub fn populate_floor(dungeon: &Dungeon, floor: u32, rng: &mut Rng) -> (sp: Spawn)
    requires
        dungeon.wf(),
        floor <= MAX_SPAWN_FLOOR,
    ensures
        (sp.player, sp.monsters@, final(rng)@) == populated(dungeon.cells(), dungeon.width as int, dungeon.slots(), Some(floor), old(rng)@),
{
    populate_with(dungeon, Some(floor), rng)
}

/// `populate` with a fresh RNG from `seed`, so a seed reproduces the whole
/// level including its inhabitants.
pub fn populate_seeded(dungeon: &Dungeon, seed: u64) -> (sp: Spawn)
    requires
        dungeon.wf(),
    ensures
        (sp.player, sp.monsters@) == ({
            let p = populated(dungeon.cells(), dungeon.width as int, dungeon.slots(), None, crate::rng::seeded(seed));
            (p.0, p.1)
        }),
{
    let mut rng = Rng::new(seed);
    populate(dungeon, &mut rng)
}


/// The player's summary line.
pub open spec fn player_line(p: Player) -> Seq<char> {
    seq!['@'] + " at ("@ + digits(p.x as nat) + ","@ + digits(p.y as nat) + "), hp "@ + decimal(
        p.hp as int,
    ) + "/"@ + decimal(p.max_hp as int) + " str "@ + decimal(p.strength as int) + " gold "@
        + decimal(p.gold as int) + " xp "@ + decimal(p.experience as int)
}

/// One monster's summary line, led by a newline.
pub open spec fn monster_line(m: Monster) -> Seq<char> {
    let t = stats_of(m.kind);
    seq!['\n', letter_of(m.kind), ' '] + name_of(m.kind)@ + " at ("@ + digits(m.x as nat) + ","@
        + digits(m.y as nat) + "), hp "@ + decimal(m.hp as int) + "/"@ + decimal(t.hit_points as int)
        + " ac "@ + decimal(t.armor_class as int) + " dmg "@ + digits(t.damage.dice as nat) + "x"@
        + digits(t.damage.sides as nat) + " xp "@ + decimal(t.exp as int)
}

/// The summary lines of the first `n` monsters.
pub open spec fn monster_lines(ms: Seq<Monster>, n: int) -> Seq<char>
    decreases n,
{
    if n <= 0 || n > ms.len() {
        Seq::empty()
    } else {
        monster_lines(ms, n - 1) + monster_line(ms[n - 1])
    }
}

/// One monster's summary line, led by a newline.
fn monster_text(m: &Monster) -> (out: String)
    ensures
        out@ == monster_line(*m),
{
    let mut out = String::new();
    push_char(&mut out, '\n');
    push_char(&mut out, m.symbol());
    push_char(&mut out, ' ');
    push_str(&mut out, m.name());
    push_str(&mut out, " at (");
    push_digits(&mut out, m.x as u64);
    push_str(&mut out, ",");
    push_digits(&mut out, m.y as u64);
    push_str(&mut out, "), hp ");
    push_decimal(&mut out, m.hp as i64);
    push_str(&mut out, "/");
    push_decimal(&mut out, m.kind.stats().hit_points as i64);
    push_str(&mut out, " ac ");
    push_decimal(&mut out, m.armor_class() as i64);
    push_str(&mut out, " dmg ");
    let dmg = m.damage().notation();
    push_str(&mut out, dmg.as_str());
    push_str(&mut out, " xp ");
    push_decimal(&mut out, m.exp_value() as i64);
    assert(out@ =~= monster_line(*m));
    out
}

impl Spawn {
    /// One compact line per entity: the player, then each monster.
    pub fn summary(&self) -> (out: String)
        ensures
            out@ == player_line(self.player) + monster_lines(self.monsters@, self.monsters@.len() as int),
    {
        let p = &self.player;
        let mut out = String::new();
        push_char(&mut out, p.symbol());
        push_str(&mut out, " at (");
        push_digits(&mut out, p.x as u64);
        push_str(&mut out, ",");
        push_digits(&mut out, p.y as u64);
        push_str(&mut out, "), hp ");
        push_decimal(&mut out, p.hp as i64);
        push_str(&mut out, "/");
        push_decimal(&mut out, p.max_hp as i64);
        push_str(&mut out, " str ");
        push_decimal(&mut out, p.strength as i64);
        push_str(&mut out, " gold ");
        push_decimal(&mut out, p.gold as i64);
        push_str(&mut out, " xp ");
        push_decimal(&mut out, p.experience as i64);
        assert(out@ =~= player_line(self.player));
        let mut i: usize = 0;
        while i < self.monsters.len()
            invariant
                i <= self.monsters@.len(),
                out@ == player_line(self.player) + monster_lines(self.monsters@, i as int),
            decreases self.monsters@.len() - i,
        {
            let line = monster_text(&self.monsters[i]);
            push_str(&mut out, line.as_str());
            i = i + 1;
            assert(out@ =~= player_line(self.player) + monster_lines(self.monsters@, i as int));
        }
        out
    }
}

} // verus!
