//! Public knowledge about an opponent mon's held item, updated from item
//! events in the protocol (items by dex id).

use vstd::prelude::*;

use crate::protocol::{
    begins_with, chars_of, eq_chars, eq_str, field, field_at, find_stripped, first_stripped,
    split_chars, split_spec, strip_prefix_str, views, any_field_is,
};
use crate::text::to_id;
use crate::corpus::toid_chars;

verus! {

/// What the log has shown of one opponent mon's item.
#[derive(Clone, Copy, Debug)]
pub struct ItemObs {
    /// The item the mon brought: `None` unknown, `Some(None)` known to have
    /// started empty-handed (its Thief succeeded).
    pub original: Option<Option<usize>>,
    /// The item it holds now, when public: `Some(None)` known consumed or
    /// stolen away.
    pub current: Option<Option<usize>>,
    /// A gain (Thief steal) was seen: later reveals no longer identify the
    /// original item.
    pub gained: bool,
}

impl ItemObs {
    /// Nothing known.
    pub fn unknown() -> (o: Self)
        ensures
            o.original is None,
            o.current is None,
            !o.gained,
    {
        ItemObs { original: None, current: None, gained: false }
    }

    /// Item `x` left the mon (a held-item loss or `-enditem`): it now holds
    /// nothing, and unless a gain came first and when still unknown, `x` was
    /// what it brought. Returns whether anything changed.
    pub fn lost(&mut self, x: usize) -> (dirty: bool)
        ensures
            *final(self) == after_event(*old(self), ItemEventKind::Lost(x)),
            final(self).current == Some(None::<usize>),
            final(self).gained == old(self).gained,
            final(self).original == if !old(self).gained && old(self).original is None {
                Some(Some(x))
            } else {
                old(self).original
            },
            dirty == (old(self).current != Some(None::<usize>) || (!old(self).gained
                && old(self).original is None)),
    {
        let mut dirty = match self.current {
            Some(None) => false,
            _ => true,
        };
        self.current = Some(None);
        if !self.gained && self.original.is_none() {
            self.original = Some(Some(x));
            dirty = true;
        }
        dirty
    }

    /// Item `y` arrived (Thief): it holds `y`, a gain is recorded, and an
    /// unknown original is settled as empty-handed (Thief only steals into
    /// an empty hand). Returns whether anything changed.
    pub fn gained(&mut self, y: usize) -> (dirty: bool)
        ensures
            *final(self) == after_event(*old(self), ItemEventKind::Gained(y)),
            final(self).current == Some(Some(y)),
            final(self).gained,
            final(self).original == if old(self).original is None {
                Some(None::<usize>)
            } else {
                old(self).original
            },
            dirty == (old(self).current != Some(Some(y)) || !old(self).gained),
    {
        let same = match self.current {
            Some(Some(c)) => c == y,
            _ => false,
        };
        let dirty = !same || !self.gained;
        self.current = Some(Some(y));
        if self.original.is_none() {
            self.original = Some(None);
        }
        self.gained = true;
        dirty
    }

    /// A passive reveal of a held item `x`: only unknown state is filled
    /// in, so a stale reveal after the item left cannot bring it back.
    /// Returns whether anything changed.
    pub fn revealed_held(&mut self, x: usize) -> (dirty: bool)
        ensures
            *final(self) == after_event(*old(self), ItemEventKind::RevealedHeld(x)),
            final(self).current == if old(self).current is None {
                Some(Some(x))
            } else {
                old(self).current
            },
            final(self).gained == old(self).gained,
            final(self).original == if !old(self).gained && old(self).original is None {
                Some(Some(x))
            } else {
                old(self).original
            },
            dirty == (old(self).current is None || (!old(self).gained && old(self).original is None)),
    {
        let mut dirty = false;
        if self.current.is_none() {
            self.current = Some(Some(x));
            dirty = true;
        }
        if !self.gained && self.original.is_none() {
            self.original = Some(Some(x));
            dirty = true;
        }
        dirty
    }
}

/// One item event of the log.
#[derive(Clone, Copy, Debug)]
pub enum ItemEventKind {
    Lost(usize),
    Gained(usize),
    RevealedHeld(usize),
}

/// The observation after one event, as the three updates state it.
pub open spec fn after_event(o: ItemObs, e: ItemEventKind) -> ItemObs {
    match e {
        ItemEventKind::Lost(x) => ItemObs {
            current: Some(None),
            original: if !o.gained && o.original is None { Some(Some(x)) } else { o.original },
            gained: o.gained,
        },
        ItemEventKind::Gained(y) => ItemObs {
            current: Some(Some(y)),
            original: if o.original is None { Some(None) } else { o.original },
            gained: true,
        },
        ItemEventKind::RevealedHeld(x) => ItemObs {
            current: if o.current is None { Some(Some(x)) } else { o.current },
            original: if !o.gained && o.original is None { Some(Some(x)) } else { o.original },
            gained: o.gained,
        },
    }
}

/// The observation after a run of events.
pub open spec fn after_events(o: ItemObs, es: Seq<ItemEventKind>) -> ItemObs
    decreases es.len(),
{
    if es.len() == 0 {
        o
    } else {
        after_event(after_events(o, es.drop_last()), es.last())
    }
}

/// Whether an event changes what is known.
pub open spec fn event_dirty(o: ItemObs, e: ItemEventKind) -> bool {
    match e {
        ItemEventKind::Lost(_) => o.current != Some(None::<usize>) || (!o.gained && o.original is None),
        ItemEventKind::Gained(y) => o.current != Some(Some(y)) || !o.gained,
        ItemEventKind::RevealedHeld(_) => o.current is None || (!o.gained && o.original is None),
    }
}

/// Applies one event through the matching update.
pub fn apply_item_event(o: &mut ItemObs, e: ItemEventKind) -> (dirty: bool)
    ensures
        *final(o) == after_event(*old(o), e),
        dirty == event_dirty(*old(o), e),
{
    match e {
        ItemEventKind::Lost(x) => o.lost(x),
        ItemEventKind::Gained(y) => o.gained(y),
        ItemEventKind::RevealedHeld(x) => o.revealed_held(x),
    }
}

/// Once the brought item is known, no later event changes it.
pub proof fn lemma_original_is_settled(o: ItemObs, es: Seq<ItemEventKind>)
    requires
        o.original is Some,
    ensures
        after_events(o, es).original == o.original,
    decreases es.len(),
{
    if es.len() > 0 {
        lemma_original_is_settled(o, es.drop_last());
    }
}

/// Once a gain was seen it stays seen, and no later event settles the
/// brought item as anything but empty-handed.
pub proof fn lemma_gain_is_permanent(o: ItemObs, es: Seq<ItemEventKind>)
    requires
        o.gained,
    ensures
        after_events(o, es).gained,
        o.original is None ==> after_events(o, es).original is None || after_events(o, es).original == Some(None::<usize>),
    decreases es.len(),
{
    if es.len() > 0 {
        lemma_gain_is_permanent(o, es.drop_last());
    }
}

/// A reveal after the item left does not bring it back.
pub proof fn lemma_reveal_after_loss_keeps_it_gone(o: ItemObs, x: usize, y: usize)
    ensures
        after_events(o, seq![ItemEventKind::Lost(x), ItemEventKind::RevealedHeld(y)]).current == Some(None::<usize>),
{
    let es = seq![ItemEventKind::Lost(x), ItemEventKind::RevealedHeld(y)];
    assert(es.drop_last() =~= seq![ItemEventKind::Lost(x)]);
    assert(es.drop_last().drop_last() =~= Seq::<ItemEventKind>::empty());
    assert(after_events(o, es.drop_last().drop_last()) == o);
    assert(es.drop_last().last() == ItemEventKind::Lost(x));
    assert(after_events(o, es.drop_last()) == after_event(o, ItemEventKind::Lost(x)));
    assert(es.last() == ItemEventKind::RevealedHeld(y));
}


// ------------------------------------------------------------- observer

/// The dex's id tables: an id is the index of its key.
#[derive(Debug)]
pub struct DexKeys {
    pub moves: Vec<String>,
    pub items: Vec<String>,
}

/// The id of the first entry of `keys` equal to `k`, looking from `i` on.
pub open spec fn key_id(keys: Seq<String>, k: Seq<char>, i: int) -> Option<usize>
    decreases keys.len() - i,
{
    if i < 0 || i >= keys.len() {
        None
    } else if keys[i]@ == k {
        Some(i as usize)
    } else {
        key_id(keys, k, i + 1)
    }
}

pub(crate) fn find_key(keys: &Vec<String>, k: &[char]) -> (r: Option<usize>)
    ensures
        r == key_id(keys@, k@, 0),
        r matches Some(i) ==> i < keys@.len(),
{
    let mut i: usize = keys.len();
    let mut found: Option<usize> = None;
    while i > 0
        invariant
            i <= keys@.len(),
            found == key_id(keys@, k@, i as int),
            found matches Some(j) ==> j < keys@.len(),
        decreases i,
    {
        i = i - 1;
        let c = chars_of(keys[i].as_str());
        if eq_chars(&c, k) {
            found = Some(i);
        }
    }
    found
}

/// Public gender from the preview details.
#[derive(Clone, Copy, Debug)]
pub enum Gender {
    M,
    F,
    N,
}

/// Everything legitimately known about one opponent roster mon.
#[derive(Debug)]
pub struct MonObs {
    pub species: usize,
    pub level: u8,
    pub gender: Gender,
    /// Nickname (resolves log subjects back to roster slots).
    pub name: String,
    /// The preview line's item flag: the mon brought an item.
    pub preview_has_item: bool,
    /// Moves known to be in the mon's set, in order of first reveal.
    pub revealed_moves: Vec<usize>,
    pub item: ItemObs,
    /// The mon has switched in at least once.
    pub appeared: bool,
}

/// What the observer has learned, as plain values: per opponent slot the
/// revealed moves and the item knowledge, and per slot whether plain
/// `|move|` lines are suppressed (a Transform copy or Mimic overlay).
pub struct ObsModel {
    pub revealed: Seq<Seq<usize>>,
    pub items: Seq<ItemObs>,
    pub suppress: Seq<bool>,
}

/// A subject field names the opponent's side: at least four bytes,
/// starting `p1`/`p2` for the opponent.
pub open spec fn is_opp_side(subject: Seq<char>, opp: usize) -> bool {
    let b = vstd::utf8::encode_utf8(subject);
    b.len() >= 4 && b[0] == 0x70u8 && b[1] as int == 0x31 + opp
}

/// The nickname of a subject `p2a: Nick` / `p2: Nick`.
pub open spec fn subject_nick(subject: Seq<char>) -> Option<Seq<char>> {
    let rest = subject.skip(2);
    let rest = if rest.len() > 0 && 'a' <= rest[0] <= 'z' { rest.skip(1) } else { rest };
    if begins_with(rest, ": "@) {
        Some(rest.skip(2))
    } else {
        None
    }
}

/// The slots whose nickname is `n`, from `i` on.
pub open spec fn name_matches(names: Seq<Seq<char>>, n: Seq<char>, i: int) -> Seq<int>
    decreases names.len() - i,
{
    if i < 0 || i >= names.len() {
        Seq::empty()
    } else if names[i] == n {
        seq![i].add(name_matches(names, n, i + 1))
    } else {
        name_matches(names, n, i + 1)
    }
}

/// The opponent roster slot a subject names: its nickname must match
/// exactly one slot (an ambiguous or foreign subject is skipped).
pub open spec fn opp_slot(names: Seq<Seq<char>>, opp: usize, subject: Seq<char>) -> Option<int> {
    if !is_opp_side(subject, opp) || subject.len() < 2 {
        None
    } else {
        match subject_nick(subject) {
            Some(n) => {
                let ms = name_matches(names, n, 0);
                if ms.len() == 1 {
                    Some(ms[0])
                } else {
                    None
                }
            },
            None => None,
        }
    }
}

/// The state after item event `e` on slot `m`, and whether it changed.
pub open spec fn item_step(st: ObsModel, m: int, e: ItemEventKind) -> (ObsModel, bool) {
    (ObsModel { items: st.items.update(m, after_event(st.items[m], e)), ..st }, event_dirty(st.items[m], e))
}

/// A `|move|` line's parts read by the observer.
pub open spec fn scan_move_spec(names: Seq<Seq<char>>, opp: usize, dex_moves: Seq<String>, st: ObsModel, parts: Seq<Seq<char>>) -> (ObsModel, bool) {
    match opp_slot(names, opp, field(parts, 1)) {
        None => (st, false),
        Some(m) => if st.suppress[m] {
            (st, false)
        } else {
            let from = first_stripped(parts, "[from] "@, 0);
            if from matches Some(f) && f != "Sleep Talk"@ {
                (st, false)
            } else {
                match key_id(dex_moves, to_id(field(parts, 2)), 0) {
                    None => (st, false),
                    Some(id) => {
                        let key = dex_moves[id as int]@;
                        if key == "struggle"@ || key == "recharge"@ || st.revealed[m].contains(id) {
                            (st, false)
                        } else {
                            (ObsModel { revealed: st.revealed.update(m, st.revealed[m].push(id)), ..st }, true)
                        }
                    },
                }
            }
        },
    }
}

/// One protocol line read by the observer: the new knowledge and whether
/// anything changed.
#[verifier::opaque]
pub open spec fn scan_line_spec(names: Seq<Seq<char>>, opp: usize, dex: DexKeys, st: ObsModel, line: Seq<char>) -> (ObsModel, bool) {
    if !begins_with(line, "|"@) {
        (st, false)
    } else {
        let parts = split_spec(line.skip(1), '|');
        let cmd = field(parts, 0);
        if cmd == "move"@ {
            scan_move_spec(names, opp, dex.moves@, st, parts)
        } else if cmd == "switch"@ || cmd == "drag"@ || cmd == "faint"@ {
            if is_opp_side(field(parts, 1), opp) {
                (ObsModel { suppress: Seq::new(st.suppress.len(), |i: int| false), ..st }, false)
            } else {
                (st, false)
            }
        } else if cmd == "-transform"@ {
            match opp_slot(names, opp, field(parts, 1)) {
                Some(m) => (ObsModel { suppress: st.suppress.update(m, true), ..st }, false),
                None => (st, false),
            }
        } else if cmd == "-activate"@ {
            match opp_slot(names, opp, field(parts, 1)) {
                None => (st, false),
                Some(m) => {
                    let what = field(parts, 2);
                    if what == "move: Mimic"@ {
                        (ObsModel { suppress: st.suppress.update(m, true), ..st }, false)
                    } else if begins_with(what, "item: "@) {
                        match key_id(dex.items@, to_id(what.skip(6)), 0) {
                            Some(id) => item_step(st, m, ItemEventKind::RevealedHeld(id)),
                            None => (st, false),
                        }
                    } else {
                        (st, false)
                    }
                },
            }
        } else if cmd == "-enditem"@ {
            match opp_slot(names, opp, field(parts, 1)) {
                None => (st, false),
                Some(m) => match key_id(dex.items@, to_id(field(parts, 2)), 0) {
                    Some(id) => item_step(st, m, ItemEventKind::Lost(id)),
                    None => (st, false),
                },
            }
        } else if cmd == "-item"@ {
            match key_id(dex.items@, to_id(field(parts, 2)), 0) {
                None => (st, false),
                Some(id) => match opp_slot(names, opp, field(parts, 1)) {
                    Some(m) => item_step(st, m, ItemEventKind::Gained(id)),
                    None => if parts.contains("[from] move: Thief"@) {
                        match first_stripped(parts, "[of] "@, 0) {
                            Some(of) => match opp_slot(names, opp, of) {
                                Some(v) => item_step(st, v, ItemEventKind::Lost(id)),
                                None => (st, false),
                            },
                            None => (st, false),
                        }
                    } else {
                        (st, false)
                    },
                },
            }
        } else if cmd == "-heal"@ {
            match opp_slot(names, opp, field(parts, 1)) {
                None => (st, false),
                Some(m) => match first_stripped(parts, "[from] item: "@, 0) {
                    Some(name) => match key_id(dex.items@, to_id(name), 0) {
                        Some(id) => item_step(st, m, ItemEventKind::RevealedHeld(id)),
                        None => (st, false),
                    },
                    None => (st, false),
                },
            }
        } else {
            (st, false)
        }
    }
}

/// What one player legitimately knows about the opponent's team.
pub struct Observer {
    side: usize,
    species: Vec<usize>,
    levels: Vec<u8>,
    genders: Vec<Gender>,
    names: Vec<String>,
    preview_items: Vec<bool>,
    revealed: Vec<Vec<usize>>,
    items: Vec<ItemObs>,
    appeared: Vec<bool>,
    /// The standing item of each opponent slot at the last state diff
    /// (private: only its transitions produce knowledge).
    prev_item: Vec<Option<usize>>,
    log_pos: usize,
    log_suppress: Vec<bool>,
    revision: u64,
}

/// One opponent roster mon at a decision point, as the state diff reads
/// it: whether it has been on the field, its base move slots, and the item
/// it holds.
#[derive(Debug)]
pub struct RosterView {
    pub on_field_once: bool,
    /// `(move id, pp, maxpp, used)` per base move slot.
    pub slots: Vec<(usize, i32, i32, bool)>,
    pub item: Option<usize>,
}

impl Observer {
    pub closed spec fn wf(&self) -> bool {
        let n = self.names@.len();
        &&& self.side <= 1
        &&& self.species@.len() == n
        &&& self.levels@.len() == n
        &&& self.genders@.len() == n
        &&& self.preview_items@.len() == n
        &&& self.revealed@.len() == n
        &&& self.items@.len() == n
        &&& self.appeared@.len() == n
        &&& self.prev_item@.len() == n
        &&& self.log_suppress@.len() == n
    }

    pub closed spec fn side_spec(&self) -> usize {
        self.side
    }

    pub closed spec fn opp_spec(&self) -> usize {
        (1 - self.side) as usize
    }

    pub closed spec fn names_spec(&self) -> Seq<Seq<char>> {
        self.names@.map_values(|s: String| s@)
    }

    pub closed spec fn model(&self) -> ObsModel {
        ObsModel {
            revealed: self.revealed@.map_values(|v: Vec<usize>| v@),
            items: self.items@,
            suppress: self.log_suppress@,
        }
    }

    /// What preview showed of each opponent slot: species, level, gender
    /// and whether it brought an item.
    pub closed spec fn roster_spec(&self) -> Seq<(usize, u8, Gender, bool)> {
        Seq::new(self.names@.len(), |i: int| (self.species@[i], self.levels@[i], self.genders@[i], self.preview_items@[i]))
    }

    pub closed spec fn revision_spec(&self) -> u64 {
        self.revision
    }

    pub closed spec fn log_pos_spec(&self) -> usize {
        self.log_pos
    }

    /// An observer for `side` over the opponent's preview roster, given as
    /// mons (their `item` and `revealed_moves` are ignored: nothing is
    /// known yet) and the items they hold at preview.
    pub fn from_mons(side: usize, mons: Vec<MonObs>, held: Vec<Option<usize>>) -> (o: Self)
        requires
            side <= 1,
            held@.len() == mons@.len(),
        ensures
            o.wf(),
            o.opp_spec() == 1 - side,
            o.names_spec() == mons@.map_values(|m: MonObs| m.name@),
            o.roster_spec() == mons@.map_values(|m: MonObs| (m.species, m.level, m.gender, m.preview_has_item)),
            o.model().revealed == Seq::new(mons@.len(), |i: int| Seq::<usize>::empty()),
            o.model().items == Seq::new(mons@.len(), |i: int| (ItemObs { original: None, current: None, gained: false })),
            o.model().suppress == Seq::new(mons@.len(), |i: int| false),
            o.revision_spec() == 0,
            o.log_pos_spec() == 0,
    {
        let mut o = Observer {
            side,
            species: Vec::new(),
            levels: Vec::new(),
            genders: Vec::new(),
            names: Vec::new(),
            preview_items: Vec::new(),
            revealed: Vec::new(),
            items: Vec::new(),
            appeared: Vec::new(),
            prev_item: held,
            log_pos: 0,
            log_suppress: Vec::new(),
            revision: 0,
        };
        let n = mons.len();
        for i in 0..n
            invariant
                n == mons@.len(),
                o.side == side,
                o.prev_item@.len() == n,
                o.log_pos == 0,
                o.revision == 0,
                o.names@.len() == i,
                o.species@.len() == i,
                o.levels@.len() == i,
                o.genders@.len() == i,
                o.preview_items@.len() == i,
                o.revealed@.len() == i,
                o.items@.len() == i,
                o.appeared@.len() == i,
                o.log_suppress@.len() == i,
                forall|j: int| 0 <= j < i ==> (#[trigger] o.names@[j])@ == mons@[j].name@,
                forall|j: int| 0 <= j < i ==> (#[trigger] o.species@[j]) == mons@[j].species,
                forall|j: int| 0 <= j < i ==> (#[trigger] o.levels@[j]) == mons@[j].level,
                forall|j: int| 0 <= j < i ==> (#[trigger] o.genders@[j]) == mons@[j].gender,
                forall|j: int| 0 <= j < i ==> (#[trigger] o.preview_items@[j]) == mons@[j].preview_has_item,
                forall|j: int| 0 <= j < i ==> (#[trigger] o.revealed@[j])@ == Seq::<usize>::empty(),
                forall|j: int| 0 <= j < i ==> #[trigger] o.items@[j] == (ItemObs { original: None, current: None, gained: false }),
                forall|j: int| 0 <= j < i ==> !(#[trigger] o.log_suppress@[j]),
        {
            let m = &mons[i];
            o.species.push(m.species);
            o.levels.push(m.level);
            o.genders.push(m.gender);
            o.names.push(String::from_str(m.name.as_str()));
            o.preview_items.push(m.preview_has_item);
            o.revealed.push(Vec::new());
            o.items.push(ItemObs::unknown());
            o.appeared.push(false);
            o.log_suppress.push(false);
        }
        proof {
            assert(o.names_spec() =~= mons@.map_values(|m: MonObs| m.name@));
            assert(o.roster_spec() =~= mons@.map_values(|m: MonObs| (m.species, m.level, m.gender, m.preview_has_item)));
            assert(o.model().revealed =~= Seq::new(mons@.len(), |i: int| Seq::<usize>::empty()));
            assert(o.model().items =~= Seq::new(mons@.len(), |i: int| ItemObs { original: None, current: None, gained: false }));
            assert(o.model().suppress =~= Seq::new(mons@.len(), |i: int| false));
        }
        o
    }

    pub fn side(&self) -> (r: usize)
        ensures
            r == self.side_spec(),
    {
        self.side
    }

    pub fn opp(&self) -> (r: usize)
        requires
            self.wf(),
        ensures
            r == self.opp_spec(),
    {
        1 - self.side
    }

    /// Bumped whenever new information arrives.
    pub fn revision(&self) -> (r: u64)
        ensures
            r == self.revision_spec(),
    {
        self.revision
    }

    fn opp_subject(&self, s: &[char]) -> (r: Option<usize>)
        requires
            self.wf(),
        ensures
            match r {
                Some(m) => opp_slot(self.names_spec(), self.opp_spec(), s@) == Some(m as int) && m < self.names@.len(),
                None => opp_slot(self.names_spec(), self.opp_spec(), s@) is None,
            },
    {
        if !self.is_opp_side(s) {
            return None;
        }
        if s.len() < 2 {
            return None;
        }
        let mut rest: Vec<char> = Vec::new();
        for k in 2..s.len()
            invariant
                2 <= s@.len(),
                rest@ == s@.subrange(2, k as int),
        {
            rest.push(s[k]);
            assert(s@.subrange(2, k + 1) =~= s@.subrange(2, k as int).push(s@[k as int]));
        }
        assert(s@.subrange(2, s@.len() as int) =~= s@.skip(2));
        let rest2: Vec<char> = if rest.len() > 0 && 'a' <= rest[0] && rest[0] <= 'z' {
            let mut r2: Vec<char> = Vec::new();
            for k in 1..rest.len()
                invariant
                    1 <= rest@.len(),
                    r2@ == rest@.subrange(1, k as int),
            {
                r2.push(rest[k]);
                assert(rest@.subrange(1, k + 1) =~= rest@.subrange(1, k as int).push(rest@[k as int]));
            }
            assert(rest@.subrange(1, rest@.len() as int) =~= rest@.skip(1));
            r2
        } else {
            rest
        };
        let name = match strip_prefix_str(&rest2, ": ") {
            Some(n) => {
                proof {
                    reveal_strlit(": ");
                }
                n
            },
            None => {
                return None;
            },
        };
        let ghost nm = self.names_spec();
        assert(subject_nick(s@) == Some(name@));
        let mut found: Option<usize> = None;
        let mut i: usize = self.names.len();
        while i > 0
            invariant
                subject_nick(s@) == Some(name@),
                is_opp_side(s@, self.opp_spec()),
                s@.len() >= 2,
                i <= self.names@.len(),
                nm == self.names_spec(),
                nm.len() == self.names@.len(),
                match found {
                    Some(f) => i <= f < nm.len() && name_matches(nm, name@, i as int).len() == 1 && name_matches(nm, name@, i as int)[0] == f,
                    None => name_matches(nm, name@, i as int).len() == 0,
                },
            decreases i,
        {
            i = i - 1;
            assert(nm[i as int] == self.names@[i as int]@);
            let c = chars_of(self.names[i].as_str());
            if eq_chars(&c, &name) {
                match found {
                    Some(_) => {
                        // a second match makes the nickname ambiguous
                        proof {
                            lemma_matches_len_ge(nm, name@, i as int);
                            lemma_matches_mono(nm, name@, i as int);
                        }
                        return None;
                    },
                    None => {
                        found = Some(i);
                    },
                }
            }
        }
        found
    }

    fn is_opp_side(&self, s: &[char]) -> (r: bool)
        requires
            self.wf(),
        ensures
            r == is_opp_side(s@, self.opp_spec()),
    {
        let t = crate::protocol::text_of(s);
        let b = t.as_str().as_bytes();
        let opp = 1 - self.side;
        b.len() >= 4 && b[0] == 0x70u8 && b[1] as usize == 0x31 + opp
    }
}

impl Observer {
    /// Everything but the learned knowledge is left as it was.
    pub closed spec fn same_frame(&self, other: &Observer) -> bool {
        &&& self.side == other.side
        &&& self.species == other.species
        &&& self.levels == other.levels
        &&& self.genders == other.genders
        &&& self.names == other.names
        &&& self.preview_items == other.preview_items
        &&& self.appeared == other.appeared
        &&& self.prev_item == other.prev_item
        &&& self.log_pos == other.log_pos
        &&& self.revision == other.revision
    }

    fn item_event(&mut self, m: usize, e: ItemEventKind) -> (dirty: bool)
        requires
            old(self).wf(),
            m < old(self).names@.len(),
        ensures
            final(self).wf(),
            final(self).same_frame(old(self)),
            final(self).model() == item_step(old(self).model(), m as int, e).0,
            dirty == item_step(old(self).model(), m as int, e).1,
    {
        let mut it = self.items[m];
        let dirty = apply_item_event(&mut it, e);
        self.items.set(m, it);
        proof {
            assert(self.model().revealed =~= old(self).model().revealed);
            assert(self.model().items =~= old(self).model().items.update(m as int, after_event(old(self).items@[m as int], e)));
        }
        dirty
    }

    fn suppress(&mut self, m: usize)
        requires
            old(self).wf(),
            m < old(self).names@.len(),
        ensures
            final(self).wf(),
            final(self).same_frame(old(self)),
            final(self).model() == (ObsModel { suppress: old(self).model().suppress.update(m as int, true), ..old(self).model() }),
    {
        self.log_suppress.set(m, true);
        proof {
            assert(self.model().revealed =~= old(self).model().revealed);
        }
    }

    fn clear_suppression(&mut self)
        requires
            old(self).wf(),
        ensures
            final(self).wf(),
            final(self).same_frame(old(self)),
            final(self).model() == (ObsModel { suppress: Seq::new(old(self).model().suppress.len(), |i: int| false), ..old(self).model() }),
    {
        let n = self.log_suppress.len();
        for i in 0..n
            invariant
                n == self.log_suppress@.len(),
                self.wf(),
                self.same_frame(old(self)),
                self.revealed == old(self).revealed,
                self.items == old(self).items,
                forall|j: int| 0 <= j < i ==> !self.log_suppress@[j],
        {
            self.log_suppress.set(i, false);
        }
        proof {
            assert(self.model().suppress =~= Seq::new(old(self).model().suppress.len(), |i: int| false));
        }
    }

    fn scan_move(&mut self, parts: &Vec<Vec<char>>, dex: &DexKeys) -> (dirty: bool)
        requires
            old(self).wf(),
        ensures
            final(self).wf(),
            final(self).same_frame(old(self)),
            (final(self).model(), dirty) == scan_move_spec(old(self).names_spec(), old(self).opp_spec(), dex.moves@, old(self).model(), views(parts@)),
    {
        let subj = field_at(parts, 1);
        let m = match self.opp_subject(&subj) {
            Some(m) => m,
            None => {
                return false;
            },
        };
        if self.log_suppress[m] {
            return false;
        }
        match find_stripped(parts, "[from] ") {
            Some(f) => {
                if !eq_str(&f, "Sleep Talk") {
                    return false;
                }
            },
            None => {},
        }
        let named = field_at(parts, 2);
        let id = match find_key(&dex.moves, &toid_chars(&named)) {
            Some(id) => id,
            None => {
                return false;
            },
        };
        let key = chars_of(dex.moves[id].as_str());
        if eq_str(&key, "struggle") || eq_str(&key, "recharge") {
            return false;
        }
        let mut have = false;
        let count = self.revealed[m].len();
        for j in 0..count
            invariant
                count == self.revealed@[m as int]@.len(),
                m < self.revealed@.len(),
                !have ==> forall|k: int| 0 <= k < j ==> self.revealed@[m as int]@[k] != id,
                have ==> exists|k: int| 0 <= k < j && self.revealed@[m as int]@[k] == id,
        {
            if self.revealed[m][j] == id {
                have = true;
            }
        }
        if have {
            return false;
        }
        assert(!self.revealed@[m as int]@.contains(id));
        let mut list: Vec<usize> = Vec::new();
        self.revealed.set_and_swap(m, &mut list);
        list.push(id);
        self.revealed.set(m, list);
        proof {
            assert(self.model().revealed =~= old(self).model().revealed.update(m as int, old(self).model().revealed[m as int].push(id)));
        }
        true
    }
}

impl Observer {
    /// Read one protocol line; returns whether anything new was learned.
    pub fn scan_line(&mut self, line: &str, dex: &DexKeys) -> (dirty: bool)
        requires
            old(self).wf(),
        ensures
            final(self).wf(),
            final(self).same_frame(old(self)),
            final(self).roster_spec() == old(self).roster_spec(),
            (final(self).model(), dirty) == scan_line_spec(old(self).names_spec(), old(self).opp_spec(), *dex, old(self).model(), line@),
    {
        reveal(scan_line_spec);
        let chars = chars_of(line);
        let body = match strip_prefix_str(&chars, "|") {
            Some(b) => b,
            None => {
                return false;
            },
        };
        proof {
            reveal_strlit("|");
        }
        let parts = split_chars(&body, '|');
        let ghost pv = views(parts@);
        assert(pv == split_spec(line@.skip(1), '|'));
        let cmd = field_at(&parts, 0);
        if eq_str(&cmd, "move") {
            return self.scan_move(&parts, dex);
        }
        if eq_str(&cmd, "switch") || eq_str(&cmd, "drag") || eq_str(&cmd, "faint") {
            let subj = field_at(&parts, 1);
            if self.is_opp_side(&subj) {
                self.clear_suppression();
            }
            return false;
        }
        if eq_str(&cmd, "-transform") {
            let subj = field_at(&parts, 1);
            match self.opp_subject(&subj) {
                Some(m) => self.suppress(m),
                None => {},
            }
            return false;
        }
        if eq_str(&cmd, "-activate") {
            let subj = field_at(&parts, 1);
            let m = match self.opp_subject(&subj) {
                Some(m) => m,
                None => {
                    return false;
                },
            };
            let what = field_at(&parts, 2);
            if eq_str(&what, "move: Mimic") {
                self.suppress(m);
                return false;
            }
            match strip_prefix_str(&what, "item: ") {
                Some(item_name) => {
                    proof {
                        reveal_strlit("item: ");
                    }
                    match find_key(&dex.items, &toid_chars(&item_name)) {
                        Some(id) => {
                            return self.item_event(m, ItemEventKind::RevealedHeld(id));
                        },
                        None => {
                            return false;
                        },
                    }
                },
                None => {
                    return false;
                },
            }
        }
        if eq_str(&cmd, "-enditem") {
            let subj = field_at(&parts, 1);
            let m = match self.opp_subject(&subj) {
                Some(m) => m,
                None => {
                    return false;
                },
            };
            match find_key(&dex.items, &toid_chars(&field_at(&parts, 2))) {
                Some(id) => {
                    return self.item_event(m, ItemEventKind::Lost(id));
                },
                None => {
                    return false;
                },
            }
        }
        if eq_str(&cmd, "-item") {
            let id = match find_key(&dex.items, &toid_chars(&field_at(&parts, 2))) {
                Some(id) => id,
                None => {
                    return false;
                },
            };
            let subj = field_at(&parts, 1);
            match self.opp_subject(&subj) {
                Some(m) => {
                    return self.item_event(m, ItemEventKind::Gained(id));
                },
                None => {},
            }
            if any_field_is(&parts, "[from] move: Thief") {
                match find_stripped(&parts, "[of] ") {
                    Some(of) => match self.opp_subject(&of) {
                        Some(v) => {
                            return self.item_event(v, ItemEventKind::Lost(id));
                        },
                        None => {
                            return false;
                        },
                    },
                    None => {
                        return false;
                    },
                }
            }
            return false;
        }
        if eq_str(&cmd, "-heal") {
            let subj = field_at(&parts, 1);
            let m = match self.opp_subject(&subj) {
                Some(m) => m,
                None => {
                    return false;
                },
            };
            match find_stripped(&parts, "[from] item: ") {
                Some(name) => match find_key(&dex.items, &toid_chars(&name)) {
                    Some(id) => {
                        return self.item_event(m, ItemEventKind::RevealedHeld(id));
                    },
                    None => {
                        return false;
                    },
                },
                None => {
                    return false;
                },
            }
        }
        false
    }
}

/// The moves a slot list shows as used (PP spent or the used flag), added
/// in slot order to `revealed` when new.
pub open spec fn slot_reveals(revealed: Seq<usize>, slots: Seq<(usize, i32, i32, bool)>) -> Seq<usize>
    decreases slots.len(),
{
    if slots.len() == 0 {
        revealed
    } else {
        let r = slot_reveals(revealed, slots.drop_last());
        let s = slots.last();
        if (s.1 < s.2 || s.3) && !r.contains(s.0) {
            r.push(s.0)
        } else {
            r
        }
    }
}

/// The item knowledge after the standing item went from `prev` to `cur`
/// (only transitions are public).
pub open spec fn item_transition(o: ItemObs, prev: Option<usize>, cur: Option<usize>) -> ItemObs {
    if cur == prev {
        o
    } else {
        match (prev, cur) {
            (Some(x), None) => after_event(o, ItemEventKind::Lost(x)),
            (None, Some(y)) => after_event(o, ItemEventKind::Gained(y)),
            (Some(x), Some(y)) => {
                let o1 = if !o.gained && o.original is None { ItemObs { original: Some(Some(x)), ..o } } else { o };
                after_event(o1, ItemEventKind::Gained(y))
            },
            (None, None) => o,
        }
    }
}

pub open spec fn item_transition_dirty(o: ItemObs, prev: Option<usize>, cur: Option<usize>) -> bool {
    if cur == prev {
        false
    } else {
        match (prev, cur) {
            (Some(x), None) => event_dirty(o, ItemEventKind::Lost(x)),
            (None, Some(y)) => event_dirty(o, ItemEventKind::Gained(y)),
            (Some(x), Some(y)) => {
                let o1 = if !o.gained && o.original is None { ItemObs { original: Some(Some(x)), ..o } } else { o };
                event_dirty(o1, ItemEventKind::Gained(y))
            },
            (None, None) => false,
        }
    }
}

/// The log lines read by the observer one after the other.
pub open spec fn scan_lines_spec(names: Seq<Seq<char>>, opp: usize, dex: DexKeys, st: ObsModel, lines: Seq<Seq<char>>) -> (ObsModel, bool)
    decreases lines.len(),
{
    if lines.len() == 0 {
        (st, false)
    } else {
        let prev = scan_lines_spec(names, opp, dex, st, lines.drop_last());
        let step = scan_line_spec(names, opp, dex, prev.0, lines.last());
        (step.0, prev.1 || step.1)
    }
}

impl Observer {
    pub closed spec fn appeared_spec(&self) -> Seq<bool> {
        self.appeared@
    }

    pub closed spec fn prev_item_spec(&self) -> Seq<Option<usize>> {
        self.prev_item@
    }

    /// Read one opponent slot's public state: mark it appeared, reveal the
    /// moves its base slots show as used, and learn from an item transition.
    fn diff_slot(&mut self, m: usize, view: &RosterView) -> (dirty: bool)
        requires
            old(self).wf(),
            m < old(self).names@.len(),
        ensures
            final(self).wf(),
            final(self).side == old(self).side,
            final(self).names == old(self).names,
            final(self).species == old(self).species,
            final(self).levels == old(self).levels,
            final(self).genders == old(self).genders,
            final(self).preview_items == old(self).preview_items,
            final(self).log_pos == old(self).log_pos,
            final(self).revision == old(self).revision,
            final(self).log_suppress == old(self).log_suppress,
            final(self).appeared@ == old(self).appeared@.update(m as int, old(self).appeared@[m as int] || view.on_field_once),
            final(self).prev_item@ == old(self).prev_item@.update(m as int, view.item),
            final(self).revealed@.len() == old(self).revealed@.len(),
            final(self).model().revealed == old(self).model().revealed.update(m as int, slot_reveals(old(self).model().revealed[m as int], view.slots@)),
            final(self).model().items == old(self).model().items.update(m as int, item_transition(old(self).items@[m as int], old(self).prev_item@[m as int], view.item)),
            dirty == (slot_reveals(old(self).model().revealed[m as int], view.slots@) != old(self).model().revealed[m as int]
                || item_transition_dirty(old(self).items@[m as int], old(self).prev_item@[m as int], view.item)),
    {
        if !self.appeared[m] && view.on_field_once {
            self.appeared.set(m, true);
        }
        assert(self.appeared@ =~= old(self).appeared@.update(m as int, old(self).appeared@[m as int] || view.on_field_once));
        let mut list: Vec<usize> = Vec::new();
        self.revealed.set_and_swap(m, &mut list);
        let ghost start = list@;
        let start_len = list.len();
        for k in 0..view.slots.len()
            invariant
                list@ == slot_reveals(start, view.slots@.take(k as int)),
                list@.len() >= start.len(),
                list@.len() == start.len() ==> list@ == start,
        {
            let (id, pp, maxpp, used) = view.slots[k];
            assert(view.slots@.take(k + 1).drop_last() =~= view.slots@.take(k as int));
            if pp < maxpp || used {
                let mut have = false;
                for j in 0..list.len()
                    invariant
                        !have ==> forall|i: int| 0 <= i < j ==> list@[i] != id,
                        have ==> exists|i: int| 0 <= i < j && list@[i] == id,
                {
                    if list[j] == id {
                        have = true;
                    }
                }
                if !have {
                    list.push(id);
                }
            }
        }
        assert(view.slots@.take(view.slots@.len() as int) =~= view.slots@);
        let grew = list.len() != start_len;
        self.revealed.set(m, list);
        let prev = self.prev_item[m];
        let cur = view.item;
        let mut it = self.items[m];
        let mut idirty = false;
        let same = match (prev, cur) {
            (Some(a), Some(b)) => a == b,
            (None, None) => true,
            _ => false,
        };
        if !same {
            match (prev, cur) {
                (Some(x), None) => {
                    idirty = it.lost(x);
                },
                (None, Some(y)) => {
                    idirty = it.gained(y);
                },
                (Some(x), Some(y)) => {
                    if !it.gained && it.original.is_none() {
                        it.original = Some(Some(x));
                    }
                    idirty = it.gained(y);
                },
                (None, None) => {},
            }
            self.prev_item.set(m, cur);
        }
        self.items.set(m, it);
        proof {
            assert(self.prev_item@ =~= old(self).prev_item@.update(m as int, view.item));
            assert(self.model().revealed =~= old(self).model().revealed.update(m as int, slot_reveals(old(self).model().revealed[m as int], view.slots@)));
            assert(self.model().items =~= old(self).model().items.update(m as int, item_transition(old(self).items@[m as int], old(self).prev_item@[m as int], view.item)));
        }
        grew || idirty
    }
}

/// The knowledge after the state diff of a whole roster.
pub open spec fn frame_model(st: ObsModel, prev: Seq<Option<usize>>, frame: Seq<RosterView>) -> ObsModel {
    ObsModel {
        revealed: Seq::new(st.revealed.len(), |i: int| slot_reveals(st.revealed[i], frame[i].slots@)),
        items: Seq::new(st.items.len(), |i: int| item_transition(st.items[i], prev[i], frame[i].item)),
        suppress: st.suppress,
    }
}

/// Whether the state diff of a whole roster taught anything.
pub open spec fn frame_dirty(st: ObsModel, prev: Seq<Option<usize>>, frame: Seq<RosterView>) -> bool {
    exists|i: int|
        0 <= i < frame.len() && (slot_reveals(st.revealed[i], (#[trigger] frame[i]).slots@) != st.revealed[i]
            || item_transition_dirty(st.items[i], prev[i], frame[i].item))
}

impl Observer {
    /// Ingest what became visible since the last call: the roster's public
    /// state (`frame`, one view per opponent slot) and the protocol log
    /// lines past the last one read (a log shorter than that was cleared,
    /// and its tail is lost). The revision goes up when anything new was
    /// learned.
    pub fn observe(&mut self, frame: &[RosterView], log: &[String], dex: &DexKeys)
        requires
            old(self).wf(),
            frame@.len() == old(self).names_spec().len(),
            old(self).revision_spec() < u64::MAX,
        ensures
            final(self).wf(),
            final(self).names_spec() == old(self).names_spec(),
            final(self).roster_spec() == old(self).roster_spec(),
            final(self).appeared_spec() == Seq::new(frame@.len(), |i: int| old(self).appeared_spec()[i] || frame@[i].on_field_once),
            final(self).prev_item_spec() == Seq::new(frame@.len(), |i: int| frame@[i].item),
            final(self).log_pos_spec() == log@.len(),
            ({
                let st1 = frame_model(old(self).model(), old(self).prev_item_spec(), frame@);
                let d1 = frame_dirty(old(self).model(), old(self).prev_item_spec(), frame@);
                let start = if log@.len() < old(self).log_pos_spec() { log@.len() as int } else { old(self).log_pos_spec() as int };
                let lines = log@.subrange(start, log@.len() as int).map_values(|l: String| l@);
                let r = scan_lines_spec(old(self).names_spec(), old(self).opp_spec(), *dex, st1, lines);
                &&& final(self).model() == r.0
                &&& final(self).revision_spec() == if d1 || r.1 { (old(self).revision_spec() + 1) as u64 } else { old(self).revision_spec() }
            }),
    {
        let n = frame.len();
        let mut dirty = false;
        let ghost m0 = self.model();
        let ghost p0 = self.prev_item@;
        let ghost a0 = self.appeared@;
        for i in 0..n
            invariant
                n == frame@.len(),
                n == self.names@.len(),
                self.wf(),
                self.names == old(self).names,
                self.roster_spec() == old(self).roster_spec(),
                self.side == old(self).side,
                self.log_pos == old(self).log_pos,
                self.revision == old(self).revision,
                self.log_suppress == old(self).log_suppress,
                m0 == old(self).model(),
                p0 == old(self).prev_item@,
                a0 == old(self).appeared@,
                forall|j: int| 0 <= j < i ==> self.model().revealed[j] == slot_reveals(m0.revealed[j], (#[trigger] frame@[j]).slots@),
                forall|j: int| i <= j < n ==> self.model().revealed[j] == m0.revealed[j],
                forall|j: int| 0 <= j < i ==> self.model().items[j] == item_transition(m0.items[j], p0[j], (#[trigger] frame@[j]).item),
                forall|j: int| i <= j < n ==> self.model().items[j] == m0.items[j],
                forall|j: int| 0 <= j < i ==> self.prev_item@[j] == (#[trigger] frame@[j]).item,
                forall|j: int| i <= j < n ==> self.prev_item@[j] == p0[j],
                forall|j: int| 0 <= j < i ==> self.appeared@[j] == (a0[j] || (#[trigger] frame@[j]).on_field_once),
                forall|j: int| i <= j < n ==> self.appeared@[j] == a0[j],
                dirty == exists|j: int|
                    0 <= j < i && (slot_reveals(m0.revealed[j], (#[trigger] frame@[j]).slots@) != m0.revealed[j]
                        || item_transition_dirty(m0.items[j], p0[j], frame@[j].item)),
        {
            let d = self.diff_slot(i, &frame[i]);
            proof {
                if d {
                    assert(slot_reveals(m0.revealed[i as int], frame@[i as int].slots@) != m0.revealed[i as int]
                        || item_transition_dirty(m0.items[i as int], p0[i as int], frame@[i as int].item));
                }
            }
            dirty = dirty || d;
        }
        proof {
            assert(self.model().revealed =~= frame_model(m0, p0, frame@).revealed);
            assert(self.model().items =~= frame_model(m0, p0, frame@).items);
            assert(self.prev_item@ =~= Seq::new(frame@.len(), |i: int| frame@[i].item));
            assert(self.appeared@ =~= Seq::new(frame@.len(), |i: int| a0[i] || frame@[i].on_field_once));
        }
        let ghost st1 = self.model();
        if log.len() < self.log_pos {
            self.log_pos = log.len();
        }
        let start = self.log_pos;
        let ghost lines = log@.subrange(start as int, log@.len() as int).map_values(|l: String| l@);
        for i in start..log.len()
            invariant
                start <= log@.len(),
                lines == log@.subrange(start as int, log@.len() as int).map_values(|l: String| l@),
                self.wf(),
                self.names == old(self).names,
                self.roster_spec() == old(self).roster_spec(),
                self.side == old(self).side,
                self.revision == old(self).revision,
                self.prev_item@ == Seq::new(frame@.len(), |i: int| frame@[i].item),
                self.appeared@ == Seq::new(frame@.len(), |i: int| a0[i] || frame@[i].on_field_once),
                ({
                    let r = scan_lines_spec(old(self).names_spec(), old(self).opp_spec(), *dex, st1, lines.take(i - start));
                    self.model() == r.0 && (dirty == (frame_dirty(m0, p0, frame@) || r.1))
                }),
        {
            proof {
                assert(lines.take(i + 1 - start).drop_last() =~= lines.take(i - start));
                assert(lines.take(i + 1 - start).last() == log@[i as int]@);
            }
            let d = self.scan_line(log[i].as_str(), dex);
            dirty = dirty || d;
        }
        proof {
            assert(lines.take(log@.len() - start) =~= lines);
        }
        self.log_pos = log.len();
        if dirty {
            self.revision = self.revision + 1;
        }
    }
}

impl Observer {
    /// The opponent roster as observed, one entry per slot.
    pub fn mons(&self) -> (out: Vec<MonObs>)
        requires
            self.wf(),
        ensures
            out@.len() == self.names_spec().len(),
            forall|i: int| 0 <= i < out@.len() ==> {
                &&& (#[trigger] out@[i]).name@ == self.names_spec()[i]
                &&& (out@[i].species, out@[i].level, out@[i].gender, out@[i].preview_has_item) == self.roster_spec()[i]
                &&& out@[i].revealed_moves@ == self.model().revealed[i]
                &&& out@[i].item == self.model().items[i]
                &&& out@[i].appeared == self.appeared_spec()[i]
            },
    {
        let mut out: Vec<MonObs> = Vec::new();
        for i in 0..self.names.len()
            invariant
                self.wf(),
                out@.len() == i,
                forall|j: int| 0 <= j < i ==> {
                    &&& (#[trigger] out@[j]).name@ == self.names_spec()[j]
                    &&& (out@[j].species, out@[j].level, out@[j].gender, out@[j].preview_has_item) == self.roster_spec()[j]
                    &&& out@[j].revealed_moves@ == self.model().revealed[j]
                    &&& out@[j].item == self.model().items[j]
                    &&& out@[j].appeared == self.appeared_spec()[j]
                },
        {
            let mut moves: Vec<usize> = Vec::new();
            let src = &self.revealed[i];
            for k in 0..src.len()
                invariant
                    moves@ == src@.take(k as int),
            {
                moves.push(src[k]);
                assert(src@.take(k + 1) =~= src@.take(k as int).push(src@[k as int]));
            }
            assert(src@.take(src@.len() as int) =~= src@);
            out.push(MonObs {
                species: self.species[i],
                level: self.levels[i],
                gender: self.genders[i],
                name: String::from_str(self.names[i].as_str()),
                preview_has_item: self.preview_items[i],
                revealed_moves: moves,
                item: self.items[i],
                appeared: self.appeared[i],
            });
        }
        out
    }
}

proof fn lemma_name_matches_range(names: Seq<Seq<char>>, n: Seq<char>, i: int)
    requires
        0 <= i,
    ensures
        forall|k: int| 0 <= k < name_matches(names, n, i).len() ==> i <= #[trigger] name_matches(names, n, i)[k] < names.len(),
    decreases names.len() - i,
{
    if i < names.len() {
        lemma_name_matches_range(names, n, i + 1);
        if names[i] == n {
            let t = name_matches(names, n, i + 1);
            assert(name_matches(names, n, i) == seq![i].add(t));
            assert forall|k: int| 0 <= k < seq![i].add(t).len() implies i <= #[trigger] seq![i].add(t)[k] < names.len() by {
                if k > 0 {
                    assert(seq![i].add(t)[k] == t[k - 1]);
                    assert(i + 1 <= t[k - 1]);
                } else {
                    assert(seq![i].add(t)[0] == i);
                }
            }
        } else {
            let t = name_matches(names, n, i + 1);
            assert(name_matches(names, n, i) == t);
            assert forall|k: int| 0 <= k < name_matches(names, n, i).len() implies i <= #[trigger] name_matches(names, n, i)[k] < names.len() by {
                assert(name_matches(names, n, i)[k] == t[k]);
            }
        }
    }
}

proof fn lemma_opp_slot_range(names: Seq<Seq<char>>, opp: usize, subject: Seq<char>)
    ensures
        opp_slot(names, opp, subject) matches Some(k) ==> 0 <= k < names.len(),
{
    if opp_slot(names, opp, subject) is Some {
        let n = subject_nick(subject).unwrap();
        lemma_name_matches_range(names, n, 0);
        assert(name_matches(names, n, 0).len() == 1);
        let k = name_matches(names, n, 0)[0];
        assert(0 <= k < names.len());
    }
}

/// A move line reveals at most one new move, appended to one slot's list.
proof fn lemma_scan_move_appends(names: Seq<Seq<char>>, opp: usize, dex_moves: Seq<String>, st: ObsModel, parts: Seq<Seq<char>>, m: int)
    requires
        0 <= m < st.revealed.len(),
        names.len() == st.revealed.len(),
    ensures
        ({
            let r = scan_move_spec(names, opp, dex_moves, st, parts).0;
            &&& r.items == st.items
            &&& r.revealed.len() == st.revealed.len()
            &&& r.items.len() == st.items.len()
            &&& r.revealed[m].len() >= st.revealed[m].len()
            &&& r.revealed[m].take(st.revealed[m].len() as int) == st.revealed[m]
        }),
{
    lemma_opp_slot_range(names, opp, field(parts, 1));
    let r = scan_move_spec(names, opp, dex_moves, st, parts).0;
    assert(st.revealed[m].take(st.revealed[m].len() as int) =~= st.revealed[m]);
    if r.revealed[m] != st.revealed[m] {
        assert(r.revealed[m].take(st.revealed[m].len() as int) =~= st.revealed[m]);
    }
}

/// What the observer knows only grows: every line keeps each slot's
/// revealed moves as a prefix of what it reveals after it, and a brought
/// item, once known, stays as it was.
pub proof fn lemma_scan_line_only_adds(names: Seq<Seq<char>>, opp: usize, dex: DexKeys, st: ObsModel, line: Seq<char>, m: int)
    requires
        0 <= m < st.revealed.len(),
        st.revealed.len() == st.items.len(),
        names.len() == st.revealed.len(),
    ensures
        ({
            let r = scan_line_spec(names, opp, dex, st, line).0;
            &&& r.revealed.len() == st.revealed.len()
            &&& r.items.len() == st.items.len()
            &&& r.revealed[m].len() >= st.revealed[m].len()
            &&& r.revealed[m].take(st.revealed[m].len() as int) == st.revealed[m]
            &&& (st.items[m].original is Some ==> r.items[m].original == st.items[m].original)
        }),
{
    reveal(scan_line_spec);
    let r = scan_line_spec(names, opp, dex, st, line).0;
    assert(st.revealed[m].take(st.revealed[m].len() as int) =~= st.revealed[m]);
    if begins_with(line, "|"@) {
        let parts = split_spec(line.skip(1), '|');
        lemma_scan_move_appends(names, opp, dex.moves@, st, parts, m);
        lemma_opp_slot_range(names, opp, field(parts, 1));
        if first_stripped(parts, "[of] "@, 0) is Some {
            lemma_opp_slot_range(names, opp, first_stripped(parts, "[of] "@, 0).unwrap());
        }
    }
}

proof fn lemma_matches_mono(names: Seq<Seq<char>>, n: Seq<char>, i: int)
    requires
        0 <= i <= names.len(),
    ensures
        name_matches(names, n, 0).len() >= name_matches(names, n, i).len(),
    decreases i,
{
    if i > 0 {
        lemma_matches_mono(names, n, i - 1);
    }
}

proof fn lemma_matches_len_ge(names: Seq<Seq<char>>, n: Seq<char>, i: int)
    requires
        0 <= i < names.len(),
        names[i] == n,
        name_matches(names, n, i + 1).len() >= 1,
    ensures
        name_matches(names, n, i).len() >= 2,
{
}


/// `a` is a prefix of `b`.
pub open spec fn is_prefix(a: Seq<usize>, b: Seq<usize>) -> bool {
    a.len() <= b.len() && b.take(a.len() as int) == a
}

/// Every move the slots show as used is in `r`.
pub open spec fn shows_all(r: Seq<usize>, slots: Seq<(usize, i32, i32, bool)>) -> bool {
    forall|k: int| 0 <= k < slots.len() && ((#[trigger] slots[k]).1 < slots[k].2 || slots[k].3) ==> r.contains(slots[k].0)
}

proof fn lemma_prefix_trans(a: Seq<usize>, b: Seq<usize>, c: Seq<usize>)
    requires
        is_prefix(a, b),
        is_prefix(b, c),
    ensures
        is_prefix(a, c),
{
    assert(c.take(a.len() as int) =~= c.take(b.len() as int).take(a.len() as int));
}

proof fn lemma_prefix_contains(a: Seq<usize>, b: Seq<usize>, x: usize)
    requires
        is_prefix(a, b),
        a.contains(x),
    ensures
        b.contains(x),
{
    let k = choose|k: int| 0 <= k < a.len() && a[k] == x;
    assert(b.take(a.len() as int)[k] == b[k]);
}

proof fn lemma_slot_reveals_grow(r: Seq<usize>, slots: Seq<(usize, i32, i32, bool)>)
    ensures
        is_prefix(r, slot_reveals(r, slots)),
        shows_all(slot_reveals(r, slots), slots),
    decreases slots.len(),
{
    assert(r.take(r.len() as int) =~= r);
    if slots.len() > 0 {
        let s0 = slots.drop_last();
        lemma_slot_reveals_grow(r, s0);
        let r0 = slot_reveals(r, s0);
        let r1 = slot_reveals(r, slots);
        let s = slots.last();
        if (s.1 < s.2 || s.3) && !r0.contains(s.0) {
            assert(is_prefix(r0, r1)) by {
                assert(r1.take(r0.len() as int) =~= r0);
            }
            lemma_prefix_trans(r, r0, r1);
            assert forall|k: int| 0 <= k < slots.len() && ((#[trigger] slots[k]).1 < slots[k].2 || slots[k].3) implies r1.contains(slots[k].0) by {
                if k < slots.len() - 1 {
                    assert(s0[k] == slots[k]);
                    assert(r0.contains(slots[k].0));
                    assert(is_prefix(r0, r1)) by {
                        assert(r1.take(r0.len() as int) =~= r0);
                    }
                    lemma_prefix_contains(r0, r1, slots[k].0);
                } else {
                    assert(r1[r1.len() - 1] == s.0);
                }
            }
        } else {
            assert forall|k: int| 0 <= k < slots.len() && ((#[trigger] slots[k]).1 < slots[k].2 || slots[k].3) implies r1.contains(slots[k].0) by {
                if k < slots.len() - 1 {
                    assert(s0[k] == slots[k]);
                }
            }
        }
    }
}

proof fn lemma_slot_reveals_settled(r: Seq<usize>, slots: Seq<(usize, i32, i32, bool)>)
    requires
        shows_all(r, slots),
    ensures
        slot_reveals(r, slots) == r,
    decreases slots.len(),
{
    if slots.len() > 0 {
        let s0 = slots.drop_last();
        assert(shows_all(r, s0)) by {
            assert forall|k: int| 0 <= k < s0.len() && ((#[trigger] s0[k]).1 < s0[k].2 || s0[k].3) implies r.contains(s0[k].0) by {
                assert(s0[k] == slots[k]);
            }
        }
        lemma_slot_reveals_settled(r, s0);
        let s = slots.last();
        if s.1 < s.2 || s.3 {
            assert(slots[slots.len() - 1] == s);
        }
    }
}

proof fn lemma_scan_line_lens(names: Seq<Seq<char>>, opp: usize, dex: DexKeys, st: ObsModel, line: Seq<char>)
    requires
        st.revealed.len() == st.items.len(),
        names.len() == st.revealed.len(),
    ensures
        scan_line_spec(names, opp, dex, st, line).0.revealed.len() == st.revealed.len(),
        scan_line_spec(names, opp, dex, st, line).0.items.len() == st.items.len(),
{
    if st.revealed.len() > 0 {
        lemma_scan_line_only_adds(names, opp, dex, st, line, 0);
    } else {
        reveal(scan_line_spec);
        if begins_with(line, "|"@) {
            let parts = split_spec(line.skip(1), '|');
            lemma_opp_slot_range(names, opp, field(parts, 1));
            if first_stripped(parts, "[of] "@, 0) is Some {
                lemma_opp_slot_range(names, opp, first_stripped(parts, "[of] "@, 0).unwrap());
            }
        }
    }
}

proof fn lemma_scan_lines_prefix(names: Seq<Seq<char>>, opp: usize, dex: DexKeys, st: ObsModel, lines: Seq<Seq<char>>)
    requires
        st.revealed.len() == st.items.len(),
        names.len() == st.revealed.len(),
    ensures
        ({
            let r = scan_lines_spec(names, opp, dex, st, lines).0;
            &&& r.revealed.len() == st.revealed.len()
            &&& r.items.len() == st.items.len()
            &&& forall|m: int| 0 <= m < st.revealed.len() ==> is_prefix(st.revealed[m], #[trigger] r.revealed[m])
        }),
    decreases lines.len(),
{
    if lines.len() == 0 {
        assert forall|m: int| 0 <= m < st.revealed.len() implies is_prefix(st.revealed[m], #[trigger] st.revealed[m]) by {
            assert(st.revealed[m].take(st.revealed[m].len() as int) =~= st.revealed[m]);
        }
    } else {
        lemma_scan_lines_prefix(names, opp, dex, st, lines.drop_last());
        let p = scan_lines_spec(names, opp, dex, st, lines.drop_last()).0;
        let r = scan_lines_spec(names, opp, dex, st, lines).0;
        assert(r == scan_line_spec(names, opp, dex, p, lines.last()).0);
        lemma_scan_line_lens(names, opp, dex, p, lines.last());
        assert forall|m: int| 0 <= m < st.revealed.len() implies is_prefix(st.revealed[m], #[trigger] r.revealed[m]) by {
            lemma_scan_line_only_adds(names, opp, dex, p, lines.last(), m);
            assert(is_prefix(p.revealed[m], r.revealed[m]));
            lemma_prefix_trans(st.revealed[m], p.revealed[m], r.revealed[m]);
        }
    }
}

/// The roster's standing items, as the observer keeps them after a diff.
pub open spec fn frame_items(frame: Seq<RosterView>) -> Seq<Option<usize>> {
    Seq::new(frame.len(), |i: int| frame[i].item)
}

/// Law: one `observe` call only adds: each slot's revealed moves before it
/// are a prefix of those after it; and what it leaves is settled: reading
/// the same roster frame again (with no new log lines) teaches nothing and
/// changes nothing, so a repeated call keeps the model and the revision.
pub proof fn lemma_observe_only_adds_and_settles(
    names: Seq<Seq<char>>,
    opp: usize,
    dex: DexKeys,
    st: ObsModel,
    prev: Seq<Option<usize>>,
    frame: Seq<RosterView>,
    lines: Seq<Seq<char>>,
)
    requires
        st.revealed.len() == frame.len(),
        st.items.len() == frame.len(),
        names.len() == frame.len(),
        prev.len() == frame.len(),
    ensures
        ({
            let r = scan_lines_spec(names, opp, dex, frame_model(st, prev, frame), lines).0;
            &&& forall|i: int| 0 <= i < frame.len() ==> is_prefix(st.revealed[i], #[trigger] r.revealed[i])
            &&& frame_model(r, frame_items(frame), frame) == r
            &&& !frame_dirty(r, frame_items(frame), frame)
            &&& scan_lines_spec(names, opp, dex, frame_model(r, frame_items(frame), frame), Seq::empty()) == (r, false)
        }),
{
    let st1 = frame_model(st, prev, frame);
    lemma_scan_lines_prefix(names, opp, dex, st1, lines);
    let r = scan_lines_spec(names, opp, dex, st1, lines).0;
    assert forall|i: int| 0 <= i < frame.len() implies is_prefix(st.revealed[i], #[trigger] r.revealed[i]) by {
        lemma_slot_reveals_grow(st.revealed[i], frame[i].slots@);
        assert(st1.revealed[i] == slot_reveals(st.revealed[i], frame[i].slots@));
        lemma_prefix_trans(st.revealed[i], st1.revealed[i], r.revealed[i]);
    }
    assert forall|i: int| 0 <= i < frame.len() implies slot_reveals(r.revealed[i], (#[trigger] frame[i]).slots@) == r.revealed[i] by {
        lemma_slot_reveals_grow(st.revealed[i], frame[i].slots@);
        let a = st1.revealed[i];
        assert(is_prefix(a, r.revealed[i]));
        assert(shows_all(r.revealed[i], frame[i].slots@)) by {
            let sl = frame[i].slots@;
            assert forall|k: int| 0 <= k < sl.len() && ((#[trigger] sl[k]).1 < sl[k].2 || sl[k].3) implies r.revealed[i].contains(sl[k].0) by {
                assert(a.contains(sl[k].0));
                lemma_prefix_contains(a, r.revealed[i], sl[k].0);
            }
        }
        lemma_slot_reveals_settled(r.revealed[i], frame[i].slots@);
    }
    let fm = frame_model(r, frame_items(frame), frame);
    assert(fm.revealed =~= r.revealed);
    assert(fm.items =~= r.items);
    assert(fm == r);
}

/// Law: an `|-activate|<opponent mon>|item: X` line (a Focus Band
/// proc and the like) with `X` a known item, on a mon whose item was still
/// unknown, is reported as news and leaves that mon known to have brought
/// and to hold `X`; nothing else the observer knows changes.
pub proof fn lemma_activate_item_reveals_it(
    names: Seq<Seq<char>>,
    opp: usize,
    dex: DexKeys,
    st: ObsModel,
    line: Seq<char>,
    m: int,
    id: usize,
)
    requires
        st.items.len() == names.len(),
        begins_with(line, "|"@),
        field(split_spec(line.skip(1), '|'), 0) == "-activate"@,
        opp_slot(names, opp, field(split_spec(line.skip(1), '|'), 1)) == Some(m),
        begins_with(field(split_spec(line.skip(1), '|'), 2), "item: "@),
        key_id(dex.items@, to_id(field(split_spec(line.skip(1), '|'), 2).skip(6)), 0) == Some(id),
        st.items[m].original is None,
        st.items[m].current is None,
        !st.items[m].gained,
    ensures
        ({
            let (r, dirty) = scan_line_spec(names, opp, dex, st, line);
            &&& dirty
            &&& r.items.len() == st.items.len()
            &&& r.items[m].original == Some(Some(id))
            &&& r.items[m].current == Some(Some(id))
            &&& forall|j: int| 0 <= j < st.items.len() && j != m ==> r.items[j] == #[trigger] st.items[j]
            &&& r.revealed == st.revealed
            &&& r.suppress == st.suppress
        }),
{
    reveal(scan_line_spec);
    reveal_strlit("-activate");
    reveal_strlit("move");
    reveal_strlit("switch");
    reveal_strlit("drag");
    reveal_strlit("faint");
    reveal_strlit("-transform");
    reveal_strlit("item: ");
    reveal_strlit("move: Mimic");
    let parts = split_spec(line.skip(1), '|');
    let cmd = field(parts, 0);
    let what = field(parts, 2);
    assert(cmd.len() == 9);
    assert("move"@.len() == 4 && "switch"@.len() == 6 && "drag"@.len() == 4 && "faint"@.len() == 5);
    assert("-transform"@.len() == 10);
    assert(what.take(6)[0] == "item: "@[0]);
    assert(what[0] == 'i' && "move: Mimic"@[0] == 'm');
    assert(what != "move: Mimic"@);
    lemma_opp_slot_range(names, opp, field(parts, 1));
    assert(scan_line_spec(names, opp, dex, st, line) == item_step(st, m, ItemEventKind::RevealedHeld(id)));
}

} // verus!
