//! Corpus readers: the human decisions observable in a spectator log, and
//! the full-log evidence about the acting side's own submitted set.

use vstd::prelude::*;

use crate::protocol::{
    begins_with, copy_chars, chars_of, contains_seq, contains_str, eq_chars, eq_str, field, field_at,
    parse_u16, parse_u16_spec, split_chars, split_spec, strip_prefix_str, text_of, trim_chars,
    trimmed, views,
};
use crate::text::{plain_id, to_id, toid};

verus! {

/// The view of a list of strings.
pub open spec fn string_views(v: Seq<String>) -> Seq<Seq<char>> {
    v.map_values(|s: String| s@)
}

/// `toid` on characters.
pub fn toid_chars(s: &[char]) -> (r: Vec<char>)
    ensures
        r@ == to_id(s@),
{
    let t = text_of(s);
    let id = toid(t.as_str());
    chars_of(id.as_str())
}

/// Typed Hidden Power keys collapse to the plain `hiddenpower` key.
pub fn plain(key: &str) -> (r: String)
    ensures
        r@ == plain_id(key@),
{
    if crate::text::starts_with(key, "hiddenpower") {
        String::from_str("hiddenpower")
    } else {
        String::from_str(key)
    }
}

fn plain_chars(key: &[char]) -> (r: Vec<char>)
    ensures
        r@ == plain_id(key@),
{
    let t = text_of(key);
    let p = plain(t.as_str());
    chars_of(p.as_str())
}

/// The side a subject such as `p2a: Nick` names: 1 when its second byte is
/// `2`, else 0.
pub open spec fn side_of(s: Seq<char>) -> usize {
    if s.len() >= 2 && (s[0] as u32) < 128 && s[1] == '2' {
        1
    } else {
        0
    }
}

fn side_of_chars(s: &[char]) -> (r: usize)
    ensures
        r == side_of(s@),
{
    if s.len() >= 2 && (s[0] as u32) < 128 && s[1] == '2' {
        1
    } else {
        0
    }
}

// ------------------------------------------------------------ decisions

/// What a human chose at a decision: a move (by plain id) or a switch (by
/// species id).
#[derive(Clone, Debug)]
pub enum HumanAction {
    Move(String),
    Switch(String),
}

/// One observable human decision.
#[derive(Clone, Debug)]
pub struct Decision {
    pub side: usize,
    pub turn: u16,
    /// Index of the `|turn|` line that opened the decision's turn.
    pub cut: usize,
    pub action: HumanAction,
}

/// A decision as plain values: side, turn, cut, whether it is a move, and
/// the move or species id.
pub open spec fn decision_view(d: Decision) -> (usize, u16, usize, bool, Seq<char>) {
    match d.action {
        HumanAction::Move(m) => (d.side, d.turn, d.cut, true, m@),
        HumanAction::Switch(s) => (d.side, d.turn, d.cut, false, s@),
    }
}

/// The decision scanner's state between lines.
#[derive(Clone, Copy, Debug)]
pub struct DecisionScan {
    pub turn_open: bool,
    pub turn: u16,
    pub cut: usize,
    pub fainted: (bool, bool),
    pub decided: (bool, bool),
}

pub open spec fn pick(p: (bool, bool), s: usize) -> bool {
    if s == 1 {
        p.1
    } else {
        p.0
    }
}

pub open spec fn set_at(p: (bool, bool), s: usize, v: bool) -> (bool, bool) {
    if s == 1 {
        (p.0, v)
    } else {
        (v, p.1)
    }
}

pub open spec fn scan_start() -> DecisionScan {
    DecisionScan { turn_open: false, turn: 0, cut: 0, fainted: (false, false), decided: (false, false) }
}

/// The species id a switch line's details field names: its first
/// comma-separated piece, trimmed, as an id.
pub open spec fn switch_species(details: Seq<char>) -> Seq<char> {
    to_id(trimmed(split_spec(details, ',')[0]))
}

/// One line `i` of the log read by the decision scanner.
pub open spec fn scan_line(st: DecisionScan, i: usize, line: Seq<char>) -> (DecisionScan, Option<(usize, u16, usize, bool, Seq<char>)>) {
    let p = split_spec(line, '|');
    if p.len() < 2 {
        (st, None)
    } else if p[1] == "turn"@ {
        (DecisionScan {
            turn_open: true,
            turn: match parse_u16_spec(field(p, 2)) {
                Some(t) => t,
                None => 0,
            },
            cut: i,
            fainted: (false, false),
            decided: (false, false),
        }, None)
    } else if p[1] == "faint"@ {
        (DecisionScan { fainted: set_at(st.fainted, side_of(field(p, 2)), true), ..st }, None)
    } else if p[1] == "cant"@ {
        let s = side_of(field(p, 2));
        if st.turn_open && !pick(st.decided, s) {
            (DecisionScan { decided: set_at(st.decided, s, true), ..st }, None)
        } else {
            (st, None)
        }
    } else if p[1] == "switch"@ {
        let s = side_of(field(p, 2));
        if st.turn_open && !pick(st.decided, s) {
            let st2 = DecisionScan { decided: set_at(st.decided, s, true), ..st };
            if !pick(st.fainted, s) {
                (st2, Some((s, st.turn, st.cut, false, switch_species(field(p, 3)))))
            } else {
                (st2, None)
            }
        } else {
            (st, None)
        }
    } else if p[1] == "move"@ {
        let s = side_of(field(p, 2));
        if st.turn_open && !pick(st.decided, s) && !contains_seq(line, "[from]"@) {
            (
                DecisionScan { decided: set_at(st.decided, s, true), ..st },
                Some((s, st.turn, st.cut, true, plain_id(to_id(field(p, 3))))),
            )
        } else {
            (st, None)
        }
    } else {
        (st, None)
    }
}

/// The scanner's state and the decisions found after reading `lines`.
pub open spec fn scan_lines(lines: Seq<Seq<char>>) -> (DecisionScan, Seq<(usize, u16, usize, bool, Seq<char>)>)
    decreases lines.len(),
{
    if lines.len() == 0 {
        (scan_start(), Seq::empty())
    } else {
        let prev = scan_lines(lines.drop_last());
        let step = scan_line(prev.0, (lines.len() - 1) as usize, lines.last());
        (
            step.0,
            match step.1 {
                Some(d) => prev.1.push(d),
                None => prev.1,
            },
        )
    }
}

fn pick_exec(p: (bool, bool), s: usize) -> (r: bool)
    ensures
        r == pick(p, s),
{
    if s == 1 {
        p.1
    } else {
        p.0
    }
}

fn set_exec(p: (bool, bool), s: usize, v: bool) -> (r: (bool, bool))
    ensures
        r == set_at(p, s, v),
{
    if s == 1 {
        (p.0, v)
    } else {
        (v, p.1)
    }
}

fn scan_line_exec(st: DecisionScan, i: usize, line: &str) -> (r: (DecisionScan, Option<Decision>))
    ensures
        r.0 == scan_line(st, i, line@).0,
        match r.1 {
            Some(d) => scan_line(st, i, line@).1 == Some(decision_view(d)),
            None => scan_line(st, i, line@).1 is None,
        },
{
    let chars = chars_of(line);
    let p = split_chars(&chars, '|');
    let ghost pv = views(p@);
    assert(pv == split_spec(line@, '|'));
    if p.len() < 2 {
        return (st, None);
    }
    assert(pv[1] == p@[1]@);
    let cmd = &p[1];
    if eq_str(cmd, "turn") {
        let t = match parse_u16(&field_at(&p, 2)) {
            Some(t) => t,
            None => 0,
        };
        return (DecisionScan { turn_open: true, turn: t, cut: i, fainted: (false, false), decided: (false, false) }, None);
    }
    let s = side_of_chars(&field_at(&p, 2));
    if eq_str(cmd, "faint") {
        return (DecisionScan { fainted: set_exec(st.fainted, s, true), ..st }, None);
    }
    if eq_str(cmd, "cant") {
        if st.turn_open && !pick_exec(st.decided, s) {
            return (DecisionScan { decided: set_exec(st.decided, s, true), ..st }, None);
        }
        return (st, None);
    }
    if eq_str(cmd, "switch") {
        if st.turn_open && !pick_exec(st.decided, s) {
            let st2 = DecisionScan { decided: set_exec(st.decided, s, true), ..st };
            if !pick_exec(st.fainted, s) {
                let details = field_at(&p, 3);
                let pieces = split_chars(&details, ',');
                assert(views(pieces@)[0] == pieces@[0]@);
                let species = toid_chars(&trim_chars(&pieces[0]));
                let d = Decision { side: s, turn: st.turn, cut: st.cut, action: HumanAction::Switch(text_of(&species)) };
                return (st2, Some(d));
            }
            return (st2, None);
        }
        return (st, None);
    }
    if eq_str(cmd, "move") {
        if st.turn_open && !pick_exec(st.decided, s) && !contains_str(&chars, "[from]") {
            let key = plain_chars(&toid_chars(&field_at(&p, 3)));
            let d = Decision { side: s, turn: st.turn, cut: st.cut, action: HumanAction::Move(text_of(&key)) };
            return (DecisionScan { decided: set_exec(st.decided, s, true), ..st }, Some(d));
        }
        return (st, None);
    }
    (st, None)
}

/// The decisions a spectator log shows: per turn and side, the first move
/// (not one called by another) or switch after the `|turn|` line; a
/// `cant` spends the side's decision, and a switch after a faint that
/// turn is a forced replacement, not a decision. A missing field reads as
/// empty.
pub fn extract_decisions(lines: &[String]) -> (out: Vec<Decision>)
    ensures
        out@.map_values(|d: Decision| decision_view(d)) == scan_lines(string_views(lines@)).1,
{
    let mut out: Vec<Decision> = Vec::new();
    let mut st = DecisionScan { turn_open: false, turn: 0, cut: 0, fainted: (false, false), decided: (false, false) };
    for i in 0..lines.len()
        invariant
            st == scan_lines(string_views(lines@).take(i as int)).0,
            out@.map_values(|d: Decision| decision_view(d)) == scan_lines(string_views(lines@).take(i as int)).1,
    {
        let ghost lv = string_views(lines@);
        proof {
            assert(lv.take(i + 1).drop_last() =~= lv.take(i as int));
            assert(lv.take(i + 1).last() == lines@[i as int]@);
        }
        let (next, found) = scan_line_exec(st, i, lines[i].as_str());
        st = next;
        match found {
            Some(d) => {
                let ghost before = out@.map_values(|d: Decision| decision_view(d));
                out.push(d);
                assert(out@.map_values(|d: Decision| decision_view(d)) =~= before.push(decision_view(d)));
            },
            None => {},
        }
    }
    assert(string_views(lines@).take(lines@.len() as int) =~= string_views(lines@));
    out
}


// ------------------------------------------------------------- evidence

/// A key of the evidence tables: side and nickname (or species id).
pub open spec fn key_of<V>(e: (usize, Vec<char>, V)) -> (usize, Seq<char>) {
    (e.0, e.1@)
}

/// No two entries share a key.
pub open spec fn keys_unique<V>(v: Seq<(usize, Vec<char>, V)>) -> bool {
    forall|i: int, j: int| 0 <= i < j < v.len() ==> key_of(#[trigger] v[i]) != key_of(#[trigger] v[j])
}

/// The map a table of entries stands for, each value seen through `f`.
pub open spec fn map_of<V, W>(v: Seq<(usize, Vec<char>, V)>, f: spec_fn(V) -> W) -> Map<(usize, Seq<char>), W>
    decreases v.len(),
{
    if v.len() == 0 {
        Map::empty()
    } else {
        map_of(v.drop_last(), f).insert(key_of(v.last()), f(v.last().2))
    }
}

proof fn lemma_map_of_dom<V, W>(v: Seq<(usize, Vec<char>, V)>, f: spec_fn(V) -> W, k: (usize, Seq<char>))
    ensures
        map_of(v, f).dom().contains(k) <==> exists|i: int| 0 <= i < v.len() && key_of(#[trigger] v[i]) == k,
    decreases v.len(),
{
    if v.len() > 0 {
        lemma_map_of_dom(v.drop_last(), f, k);
        if map_of(v, f).dom().contains(k) && k != key_of(v.last()) {
            let i = choose|i: int| 0 <= i < v.len() - 1 && key_of(#[trigger] v.drop_last()[i]) == k;
            assert(v[i] == v.drop_last()[i]);
        }
        if exists|i: int| 0 <= i < v.len() && key_of(#[trigger] v[i]) == k {
            let i = choose|i: int| 0 <= i < v.len() && key_of(#[trigger] v[i]) == k;
            if i < v.len() - 1 {
                assert(v.drop_last()[i] == v[i]);
            }
        }
    }
}

proof fn lemma_map_of_at<V, W>(v: Seq<(usize, Vec<char>, V)>, f: spec_fn(V) -> W, i: int)
    requires
        keys_unique(v),
        0 <= i < v.len(),
    ensures
        map_of(v, f).dom().contains(key_of(v[i])),
        map_of(v, f)[key_of(v[i])] == f(v[i].2),
    decreases v.len(),
{
    if i < v.len() - 1 {
        assert(v.drop_last()[i] == v[i]);
        assert(keys_unique(v.drop_last())) by {
            assert forall|a: int, b: int| 0 <= a < b < v.drop_last().len() implies key_of(#[trigger] v.drop_last()[a]) != key_of(#[trigger] v.drop_last()[b]) by {
                assert(v.drop_last()[a] == v[a] && v.drop_last()[b] == v[b]);
            }
        }
        lemma_map_of_at(v.drop_last(), f, i);
        assert(key_of(v[i]) != key_of(v.last()));
    }
}

proof fn lemma_map_of_update<V, W>(v: Seq<(usize, Vec<char>, V)>, f: spec_fn(V) -> W, i: int, e: (usize, Vec<char>, V))
    requires
        0 <= i < v.len(),
        key_of(e) == key_of(v[i]),
        keys_unique(v),
    ensures
        map_of(v.update(i, e), f) == map_of(v, f).insert(key_of(e), f(e.2)),
        keys_unique(v.update(i, e)),
    decreases v.len(),
{
    let u = v.update(i, e);
    assert(keys_unique(u)) by {
        assert forall|a: int, b: int| 0 <= a < b < u.len() implies key_of(#[trigger] u[a]) != key_of(#[trigger] u[b]) by {
            assert(key_of(u[a]) == key_of(v[a]));
            assert(key_of(u[b]) == key_of(v[b]));
        }
    }
    if i == v.len() - 1 {
        assert(u.drop_last() =~= v.drop_last());
        lemma_map_of_dom(v.drop_last(), f, key_of(e));
        assert(map_of(u, f) =~= map_of(v, f).insert(key_of(e), f(e.2)));
    } else {
        let d = v.drop_last();
        assert(keys_unique(d)) by {
            assert forall|a: int, b: int| 0 <= a < b < d.len() implies key_of(#[trigger] d[a]) != key_of(#[trigger] d[b]) by {
                assert(d[a] == v[a] && d[b] == v[b]);
            }
        }
        assert(u.drop_last() =~= d.update(i, e));
        lemma_map_of_update(d, f, i, e);
        assert(key_of(v.last()) != key_of(e));
        assert(map_of(u, f) =~= map_of(v, f).insert(key_of(e), f(e.2)));
    }
}

proof fn lemma_map_of_push<V, W>(v: Seq<(usize, Vec<char>, V)>, f: spec_fn(V) -> W, e: (usize, Vec<char>, V))
    requires
        keys_unique(v),
        !map_of(v, f).dom().contains(key_of(e)),
    ensures
        map_of(v.push(e), f) == map_of(v, f).insert(key_of(e), f(e.2)),
        keys_unique(v.push(e)),
{
    let u = v.push(e);
    assert(u.drop_last() =~= v);
    lemma_map_of_dom(v, f, key_of(e));
    assert(keys_unique(u)) by {
        assert forall|a: int, b: int| 0 <= a < b < u.len() implies key_of(#[trigger] u[a]) != key_of(#[trigger] u[b]) by {
            if b == v.len() {
                assert(u[a] == v[a]);
            } else {
                assert(u[a] == v[a] && u[b] == v[b]);
            }
        }
    }
}

/// An item event: the line index of an eaten item and the item's name.
#[derive(Clone, Debug)]
pub struct ItemEvent {
    pub cut: usize,
    pub item: String,
}

/// Full-log facts about the acting side's own set: the moves each mon
/// revealed (in order, once each), the first item it ate, and the nickname
/// each species first appeared under.
#[derive(Debug)]
pub struct SetEvidence {
    moves: Vec<(usize, Vec<char>, Vec<Vec<char>>)>,
    items: Vec<(usize, Vec<char>, ItemEvent)>,
    species_names: Vec<(usize, Vec<char>, Vec<char>)>,
}

/// The evidence as maps keyed by `(side, nickname)` (species names by
/// `(side, species id)`).
pub struct EvidenceModel {
    pub moves: Map<(usize, Seq<char>), Seq<Seq<char>>>,
    pub items: Map<(usize, Seq<char>), (usize, Seq<char>)>,
    pub species_names: Map<(usize, Seq<char>), Seq<char>>,
}

pub open spec fn moves_view(l: Vec<Vec<char>>) -> Seq<Seq<char>> {
    views(l@)
}

pub open spec fn item_view(e: ItemEvent) -> (usize, Seq<char>) {
    (e.cut, e.item@)
}

pub open spec fn chars_view(c: Vec<char>) -> Seq<char> {
    c@
}

impl SetEvidence {
    pub closed spec fn wf(&self) -> bool {
        &&& keys_unique(self.moves@)
        &&& keys_unique(self.items@)
        &&& keys_unique(self.species_names@)
    }

    pub closed spec fn model(&self) -> EvidenceModel {
        EvidenceModel {
            moves: map_of(self.moves@, |l: Vec<Vec<char>>| moves_view(l)),
            items: map_of(self.items@, |e: ItemEvent| item_view(e)),
            species_names: map_of(self.species_names@, |c: Vec<char>| chars_view(c)),
        }
    }

    /// No evidence.
    pub fn new() -> (e: Self)
        ensures
            e.wf(),
            e.model().moves == Map::<(usize, Seq<char>), Seq<Seq<char>>>::empty(),
            e.model().items == Map::<(usize, Seq<char>), (usize, Seq<char>)>::empty(),
            e.model().species_names == Map::<(usize, Seq<char>), Seq<char>>::empty(),
    {
        SetEvidence { moves: Vec::new(), items: Vec::new(), species_names: Vec::new() }
    }
}


fn find_entry<V>(v: &Vec<(usize, Vec<char>, V)>, side: usize, name: &[char]) -> (r: Option<usize>)
    ensures
        match r {
            Some(i) => i < v@.len() && key_of(v@[i as int]) == (side, name@),
            None => forall|i: int| 0 <= i < v@.len() ==> key_of(#[trigger] v@[i]) != (side, name@),
        },
{
    for i in 0..v.len()
        invariant
            forall|j: int| 0 <= j < i ==> key_of(#[trigger] v@[j]) != (side, name@),
    {
        if v[i].0 == side && eq_chars(&v[i].1, name) {
            return Some(i);
        }
    }
    None
}

/// The nickname a mon is known by: `name` when given, else the nickname
/// its species first appeared under on that side, else `name`.
pub open spec fn resolved(m: EvidenceModel, side: usize, name: Seq<char>, species: Seq<char>) -> Seq<char> {
    if name.len() > 0 {
        name
    } else if m.species_names.contains_key((side, species)) {
        m.species_names[(side, species)]
    } else {
        name
    }
}

impl SetEvidence {
    fn resolve_chars(&self, side: usize, name: &[char], species: &[char]) -> (r: Vec<char>)
        requires
            self.wf(),
        ensures
            r@ == resolved(self.model(), side, name@, species@),
    {
        if name.len() > 0 {
            return copy_chars(name);
        }
        match find_entry(&self.species_names, side, species) {
            Some(i) => {
                proof {
                    lemma_map_of_at(self.species_names@, |c: Vec<char>| chars_view(c), i as int);
                }
                self.species_names[i].2.clone()
            },
            None => {
                proof {
                    lemma_map_of_dom(self.species_names@, |c: Vec<char>| chars_view(c), (side, species@));
                }
                copy_chars(name)
            },
        }
    }

    /// The nickname `(side, name, species)` resolves to.
    pub fn resolved_name(&self, side: usize, name: &str, species: &str) -> (r: String)
        requires
            self.wf(),
        ensures
            r@ == resolved(self.model(), side, name@, species@),
    {
        let n = chars_of(name);
        let sp = chars_of(species);
        let r = self.resolve_chars(side, &n, &sp);
        text_of(&r)
    }

    /// The moves the resolved mon revealed, in order of first use.
    pub fn moves(&self, side: usize, name: &str, species: &str) -> (r: Vec<String>)
        requires
            self.wf(),
        ensures
            ({
                let k = (side, resolved(self.model(), side, name@, species@));
                string_views(r@) == if self.model().moves.contains_key(k) {
                    self.model().moves[k]
                } else {
                    Seq::empty()
                }
            }),
    {
        let n = chars_of(name);
        let sp = chars_of(species);
        let who = self.resolve_chars(side, &n, &sp);
        let mut out: Vec<String> = Vec::new();
        match find_entry(&self.moves, side, &who) {
            Some(i) => {
                proof {
                    lemma_map_of_at(self.moves@, |l: Vec<Vec<char>>| moves_view(l), i as int);
                }
                let list = &self.moves[i].2;
                for j in 0..list.len()
                    invariant
                        string_views(out@) == views(list@).take(j as int),
                {
                    let t = text_of(&list[j]);
                    let ghost before = string_views(out@);
                    out.push(t);
                    assert(string_views(out@) =~= before.push(t@));
                    assert(views(list@).take(j + 1) =~= views(list@).take(j as int).push(list@[j as int]@));
                }
                assert(views(list@).take(list@.len() as int) =~= views(list@));
            },
            None => {
                proof {
                    lemma_map_of_dom(self.moves@, |l: Vec<Vec<char>>| moves_view(l), (side, who@));
                }
                assert(string_views(out@) =~= Seq::<Seq<char>>::empty());
            },
        }
        out
    }

    /// The first item the resolved mon ate, with the line it happened on.
    pub fn item(&self, side: usize, name: &str, species: &str) -> (r: Option<ItemEvent>)
        requires
            self.wf(),
        ensures
            ({
                let k = (side, resolved(self.model(), side, name@, species@));
                match r {
                    Some(e) => self.model().items.contains_key(k) && item_view(e) == self.model().items[k],
                    None => !self.model().items.contains_key(k),
                }
            }),
    {
        let n = chars_of(name);
        let sp = chars_of(species);
        let who = self.resolve_chars(side, &n, &sp);
        match find_entry(&self.items, side, &who) {
            Some(i) => {
                proof {
                    lemma_map_of_at(self.items@, |e: ItemEvent| item_view(e), i as int);
                }
                let e = &self.items[i].2;
                let item = String::from_str(e.item.as_str());
                Some(ItemEvent { cut: e.cut, item })
            },
            None => {
                proof {
                    lemma_map_of_dom(self.items@, |e: ItemEvent| item_view(e), (side, who@));
                }
                None
            },
        }
    }

    fn note_species(&mut self, side: usize, species: Vec<char>, name: &[char])
        requires
            old(self).wf(),
        ensures
            final(self).wf(),
            final(self).model().moves == old(self).model().moves,
            final(self).model().items == old(self).model().items,
            final(self).model().species_names == if old(self).model().species_names.contains_key((side, species@)) {
                old(self).model().species_names
            } else {
                old(self).model().species_names.insert((side, species@), name@)
            },
    {
        match find_entry(&self.species_names, side, &species) {
            Some(i) => {
                proof {
                    lemma_map_of_at(self.species_names@, |c: Vec<char>| chars_view(c), i as int);
                }
            },
            None => {
                proof {
                    lemma_map_of_dom(self.species_names@, |c: Vec<char>| chars_view(c), (side, species@));
                }
                let e = (side, species, copy_chars(name));
                proof {
                    lemma_map_of_push(self.species_names@, |c: Vec<char>| chars_view(c), e);
                }
                self.species_names.push(e);
            },
        }
    }

    fn note_item(&mut self, side: usize, name: &[char], cut: usize, item: &[char])
        requires
            old(self).wf(),
        ensures
            final(self).wf(),
            final(self).model().moves == old(self).model().moves,
            final(self).model().species_names == old(self).model().species_names,
            final(self).model().items == if old(self).model().items.contains_key((side, name@)) {
                old(self).model().items
            } else {
                old(self).model().items.insert((side, name@), (cut, item@))
            },
    {
        match find_entry(&self.items, side, name) {
            Some(i) => {
                proof {
                    lemma_map_of_at(self.items@, |e: ItemEvent| item_view(e), i as int);
                }
            },
            None => {
                proof {
                    lemma_map_of_dom(self.items@, |e: ItemEvent| item_view(e), (side, name@));
                }
                let e = (side, copy_chars(name), ItemEvent { cut, item: text_of(item) });
                proof {
                    lemma_map_of_push(self.items@, |e: ItemEvent| item_view(e), e);
                }
                self.items.push(e);
            },
        }
    }

    fn note_move(&mut self, side: usize, name: &[char], mv: Vec<char>)
        requires
            old(self).wf(),
        ensures
            final(self).wf(),
            final(self).model().items == old(self).model().items,
            final(self).model().species_names == old(self).model().species_names,
            final(self).model().moves == old(self).model().moves.insert(
                (side, name@),
                with_move(
                    if old(self).model().moves.contains_key((side, name@)) {
                        old(self).model().moves[(side, name@)]
                    } else {
                        Seq::empty()
                    },
                    mv@,
                ),
            ),
    {
        match find_entry(&self.moves, side, name) {
            Some(i) => {
                proof {
                    lemma_map_of_at(self.moves@, |l: Vec<Vec<char>>| moves_view(l), i as int);
                }
                let mut list: Vec<Vec<char>> = Vec::new();
                let mut entry = (side, copy_chars(name), Vec::new());
                self.moves.set_and_swap(i, &mut entry);
                let ghost old_list = entry.2;
                list = entry.2;
                let mut found = false;
                for j in 0..list.len()
                    invariant
                        !found ==> forall|k: int| 0 <= k < j ==> (#[trigger] list@[k])@ != mv@,
                        found ==> exists|k: int| 0 <= k < j && (#[trigger] list@[k])@ == mv@,
                {
                    if !found && eq_chars(&list[j], &mv) {
                        found = true;
                    }
                }
                proof {
                    if found {
                        let k = choose|k: int| 0 <= k < list@.len() && (#[trigger] list@[k])@ == mv@;
                        assert(views(list@)[k] == mv@);
                    } else {
                        assert forall|k: int| 0 <= k < views(list@).len() implies views(list@)[k] != mv@ by {
                            assert(views(list@)[k] == list@[k]@);
                        }
                    }
                }
                if !found {
                    let ghost before = views(list@);
                    list.push(mv);
                    assert(views(list@) =~= before.push(mv@));
                }
                let e = (side, copy_chars(name), list);
                proof {
                    let v0 = old(self).moves@;
                    assert(self.moves@ == v0.update(i as int, self.moves@[i as int]));
                    lemma_map_of_update(v0, |l: Vec<Vec<char>>| moves_view(l), i as int, e);
                    assert(v0.update(i as int, self.moves@[i as int]).update(i as int, e) =~= v0.update(i as int, e));
                }
                self.moves.set(i, e);
            },
            None => {
                proof {
                    lemma_map_of_dom(self.moves@, |l: Vec<Vec<char>>| moves_view(l), (side, name@));
                }
                let mut list: Vec<Vec<char>> = Vec::new();
                list.push(mv);
                assert(views(list@) =~= with_move(Seq::empty(), mv@));
                let e = (side, copy_chars(name), list);
                proof {
                    lemma_map_of_push(self.moves@, |l: Vec<Vec<char>>| moves_view(l), e);
                }
                self.moves.push(e);
            },
        }
    }
}

/// A revealed-move list after one more reveal: unchanged when already
/// listed, else extended at the end.
pub open spec fn with_move(list: Seq<Seq<char>>, mv: Seq<char>) -> Seq<Seq<char>> {
    if list.contains(mv) {
        list
    } else {
        list.push(mv)
    }
}


// ------------------------------------------------------- evidence scan

/// The evidence reader's state between lines: the evidence so far, each
/// side's active nickname, and the mons currently transformed.
pub struct EvidenceScan {
    pub ev: EvidenceModel,
    pub active: (Option<Seq<char>>, Option<Seq<char>>),
    pub transformed: Set<(usize, Seq<char>)>,
}

pub open spec fn evidence_start() -> EvidenceScan {
    EvidenceScan {
        ev: EvidenceModel {
            moves: Map::empty(),
            items: Map::empty(),
            species_names: Map::empty(),
        },
        active: (None, None),
        transformed: Set::empty(),
    }
}

pub open spec fn active_at(a: (Option<Seq<char>>, Option<Seq<char>>), s: usize) -> Option<Seq<char>> {
    if s == 1 {
        a.1
    } else {
        a.0
    }
}

pub open spec fn with_active(a: (Option<Seq<char>>, Option<Seq<char>>), s: usize, v: Option<Seq<char>>) -> (Option<Seq<char>>, Option<Seq<char>>) {
    if s == 1 {
        (a.0, v)
    } else {
        (v, a.1)
    }
}

/// The first field, from index `i` on, that begins with `[from] `, without
/// that prefix.
pub open spec fn from_field(p: Seq<Seq<char>>, i: int) -> Option<Seq<char>>
    decreases p.len() - i,
{
    if i < 0 || i >= p.len() {
        None
    } else if begins_with(p[i], "[from] "@) {
        Some(p[i].skip(7))
    } else {
        from_field(p, i + 1)
    }
}

/// The move a `[from]` tag names, as a plain id (`move: ` dropped).
pub open spec fn called_key(p: Seq<Seq<char>>) -> Option<Seq<char>> {
    match from_field(p, 0) {
        Some(f) => Some(plain_id(to_id(if begins_with(f, "move: "@) { f.skip(6) } else { f }))),
        None => None,
    }
}

/// The nickname a subject field such as `p1a: Nick` names: its second
/// `:`-separated piece, trimmed.
pub open spec fn subject_name(subject: Seq<char>) -> Seq<char> {
    trimmed(field(split_spec(subject, ':'), 1))
}

/// One log line `cut` read by the evidence reader.
#[verifier::opaque]
pub open spec fn evidence_line(m: EvidenceScan, cut: usize, line: Seq<char>) -> EvidenceScan {
    let p = split_spec(line, '|');
    if p.len() < 3 {
        m
    } else {
        let side = side_of(p[2]);
        let name = subject_name(p[2]);
        let key = (side, name);
        let cmd = p[1];
        if name.len() == 0 {
            m
        } else if cmd == "switch"@ || cmd == "drag"@ || cmd == "replace"@ {
            let t1 = match active_at(m.active, side) {
                Some(o) => m.transformed.remove((side, o)),
                None => m.transformed,
            };
            let species = if p.len() > 3 { to_id(split_spec(p[3], ',')[0]) } else { Seq::empty() };
            let names = if species.len() > 0 && !m.ev.species_names.contains_key((side, species)) {
                m.ev.species_names.insert((side, species), name)
            } else {
                m.ev.species_names
            };
            EvidenceScan {
                ev: EvidenceModel { species_names: names, ..m.ev },
                active: with_active(m.active, side, Some(name)),
                transformed: t1.remove(key),
            }
        } else if cmd == "-transform"@ {
            EvidenceScan { transformed: m.transformed.insert(key), ..m }
        } else if cmd == "-end"@ && p.len() > 3 && to_id(p[3]) == "transform"@ {
            EvidenceScan { transformed: m.transformed.remove(key), ..m }
        } else if cmd == "faint"@ {
            EvidenceScan {
                transformed: m.transformed.remove(key),
                active: if active_at(m.active, side) == Some(name) { with_active(m.active, side, None) } else { m.active },
                ..m
            }
        } else if cmd == "move"@ {
            if m.transformed.contains(key) || p.len() <= 3 {
                m
            } else {
                let mv = plain_id(to_id(p[3]));
                let skip = match called_key(p) {
                    Some(f) => f != mv && f != "sleeptalk"@,
                    None => false,
                };
                if skip {
                    m
                } else {
                    let list = if m.ev.moves.contains_key(key) { m.ev.moves[key] } else { Seq::empty() };
                    EvidenceScan {
                        ev: EvidenceModel { moves: m.ev.moves.insert(key, with_move(list, mv)), ..m.ev },
                        ..m
                    }
                }
            }
        } else if cmd == "-enditem"@ && contains_seq(line, "[eat]"@) {
            if p.len() <= 3 || m.ev.items.contains_key(key) {
                m
            } else {
                EvidenceScan {
                    ev: EvidenceModel { items: m.ev.items.insert(key, (cut, p[3])), ..m.ev },
                    ..m
                }
            }
        } else {
            m
        }
    }
}

/// The evidence reader's state after `lines`.
pub open spec fn evidence_lines(lines: Seq<Seq<char>>) -> EvidenceScan
    decreases lines.len(),
{
    if lines.len() == 0 {
        evidence_start()
    } else {
        evidence_line(evidence_lines(lines.drop_last()), (lines.len() - 1) as usize, lines.last())
    }
}


/// The set a list of `(side, nickname)` pairs stands for.
pub open spec fn tset(v: Seq<(usize, Vec<char>)>) -> Set<(usize, Seq<char>)> {
    Set::new(|k: (usize, Seq<char>)| exists|i: int| 0 <= i < v.len() && (v[i].0, v[i].1@) == k)
}

pub open spec fn opt_view(o: Option<Vec<char>>) -> Option<Seq<char>> {
    match o {
        Some(v) => Some(v@),
        None => None,
    }
}

fn t_contains(v: &Vec<(usize, Vec<char>)>, side: usize, name: &[char]) -> (r: bool)
    ensures
        r == tset(v@).contains((side, name@)),
{
    for i in 0..v.len()
        invariant
            forall|j: int| 0 <= j < i ==> (v@[j].0, v@[j].1@) != (side, name@),
    {
        if v[i].0 == side && eq_chars(&v[i].1, name) {
            assert((v@[i as int].0, v@[i as int].1@) == (side, name@));
            return true;
        }
    }
    false
}

fn t_insert(v: &mut Vec<(usize, Vec<char>)>, side: usize, name: &[char])
    ensures
        tset(final(v)@) == tset(old(v)@).insert((side, name@)),
{
    let ghost v0 = v@;
    v.push((side, copy_chars(name)));
    proof {
        assert forall|k: (usize, Seq<char>)| tset(v@).contains(k) <==> tset(v0).insert((side, name@)).contains(k) by {
            if tset(v0).contains(k) {
                let i = choose|i: int| 0 <= i < v0.len() && (v0[i].0, v0[i].1@) == k;
                assert(v@[i] == v0[i]);
            }
            if tset(v@).contains(k) && k != (side, name@) {
                let i = choose|i: int| 0 <= i < v@.len() && (v@[i].0, v@[i].1@) == k;
                assert(i < v0.len());
                assert(v@[i] == v0[i]);
            }
            if k == (side, name@) {
                assert((v@[v0.len() as int].0, v@[v0.len() as int].1@) == k);
            }
        }
        assert(tset(v@) =~= tset(v0).insert((side, name@)));
    }
}

fn t_remove(v: &mut Vec<(usize, Vec<char>)>, side: usize, name: &[char])
    ensures
        tset(final(v)@) == tset(old(v)@).remove((side, name@)),
{
    let ghost v0 = v@;
    let mut kept: Vec<(usize, Vec<char>)> = Vec::new();
    for i in 0..v.len()
        invariant
            v@ == v0,
            forall|k: (usize, Seq<char>)| tset(kept@).contains(k) <==> (k != (side, name@) && exists|j: int| 0 <= j < i && (v0[j].0, v0[j].1@) == k),
    {
        let same = v[i].0 == side && eq_chars(&v[i].1, name);
        if !same {
            let ghost kb = kept@;
            kept.push((v[i].0, copy_chars(&v[i].1)));
            proof {
                assert forall|k: (usize, Seq<char>)| tset(kept@).contains(k) <==> (k != (side, name@) && exists|j: int| 0 <= j < i + 1 && (v0[j].0, v0[j].1@) == k) by {
                    if tset(kb).contains(k) {
                        let a = choose|a: int| 0 <= a < kb.len() && (kb[a].0, kb[a].1@) == k;
                        assert(kept@[a] == kb[a]);
                    }
                    if tset(kept@).contains(k) {
                        let a = choose|a: int| 0 <= a < kept@.len() && (kept@[a].0, kept@[a].1@) == k;
                        if a < kb.len() {
                            assert(kept@[a] == kb[a]);
                            assert(tset(kb).contains(k));
                        } else {
                            assert((v0[i as int].0, v0[i as int].1@) == k);
                        }
                    }
                    if k != (side, name@) && exists|j: int| 0 <= j < i + 1 && (v0[j].0, v0[j].1@) == k {
                        let j = choose|j: int| 0 <= j < i + 1 && (v0[j].0, v0[j].1@) == k;
                        if j < i {
                            assert(tset(kb).contains(k));
                            let a = choose|a: int| 0 <= a < kb.len() && (kb[a].0, kb[a].1@) == k;
                            assert(kept@[a] == kb[a]);
                        } else {
                            assert((kept@[kb.len() as int].0, kept@[kb.len() as int].1@) == k);
                        }
                    }
                }
            }
        } else {
            proof {
                assert forall|k: (usize, Seq<char>)| tset(kept@).contains(k) <==> (k != (side, name@) && exists|j: int| 0 <= j < i + 1 && (v0[j].0, v0[j].1@) == k) by {
                    if k != (side, name@) && exists|j: int| 0 <= j < i + 1 && (v0[j].0, v0[j].1@) == k {
                        let j = choose|j: int| 0 <= j < i + 1 && (v0[j].0, v0[j].1@) == k;
                        assert(j < i);
                    }
                }
            }
        }
    }
    *v = kept;
    proof {
        assert(tset(v@) =~= tset(v0).remove((side, name@)));
    }
}

/// `parts.iter().find_map(|p| p.strip_prefix("[from] "))`.
fn from_field_exec(p: &Vec<Vec<char>>) -> (r: Option<Vec<char>>)
    ensures
        opt_view(r) == from_field(views(p@), 0),
{
    let ghost pv = views(p@);
    let mut i: usize = p.len();
    let mut found: Option<Vec<char>> = None;
    while i > 0
        invariant
            i <= p@.len(),
            pv == views(p@),
            opt_view(found) == from_field(pv, i as int),
        decreases i,
    {
        i = i - 1;
        assert(pv[i as int] == p@[i as int]@);
        match strip_prefix_str(&p[i], "[from] ") {
            Some(rest) => {
                proof {
                    reveal_strlit("[from] ");
                }
                found = Some(rest);
            },
            None => {},
        }
    }
    found
}

fn called_key_exec(p: &Vec<Vec<char>>) -> (r: Option<Vec<char>>)
    ensures
        opt_view(r) == called_key(views(p@)),
{
    match from_field_exec(p) {
        Some(f) => {
            let bare = match strip_prefix_str(&f, "move: ") {
                Some(rest) => {
                    proof {
                        reveal_strlit("move: ");
                    }
                    rest
                },
                None => f,
            };
            Some(plain_chars(&toid_chars(&bare)))
        },
        None => None,
    }
}

/// The evidence reader's state, held as plain values.
struct EvidenceReader {
    ev: SetEvidence,
    active0: Option<Vec<char>>,
    active1: Option<Vec<char>>,
    transformed: Vec<(usize, Vec<char>)>,
}

impl EvidenceReader {
    spec fn model(&self) -> EvidenceScan {
        EvidenceScan {
            ev: self.ev.model(),
            active: (opt_view(self.active0), opt_view(self.active1)),
            transformed: tset(self.transformed@),
        }
    }

    fn active_of(&self, side: usize) -> (r: Option<Vec<char>>)
        ensures
            opt_view(r) == active_at(self.model().active, side),
    {
        let a = if side == 1 { &self.active1 } else { &self.active0 };
        match a {
            Some(v) => Some(copy_chars(v)),
            None => None,
        }
    }

    fn set_active(&mut self, side: usize, v: Option<Vec<char>>)
        ensures
            final(self).ev == old(self).ev,
            final(self).transformed == old(self).transformed,
            final(self).model().active == with_active(old(self).model().active, side, opt_view(v)),
    {
        if side == 1 {
            self.active1 = v;
        } else {
            self.active0 = v;
        }
    }

    fn read_line(&mut self, cut: usize, line: &str)
        requires
            old(self).ev.wf(),
        ensures
            final(self).ev.wf(),
            final(self).model() == evidence_line(old(self).model(), cut, line@),
    {
        reveal(evidence_line);
        let chars = chars_of(line);
        let p = split_chars(&chars, '|');
        let ghost pv = views(p@);
        assert(pv == split_spec(line@, '|'));
        if p.len() < 3 {
            return;
        }
        assert(pv[1] == p@[1]@ && pv[2] == p@[2]@);
        let side = side_of_chars(&p[2]);
        let pieces = split_chars(&p[2], ':');
        let name = trim_chars(&field_at(&pieces, 1));
        if name.len() == 0 {
            return;
        }
        let cmd = &p[1];
        if eq_str(cmd, "switch") || eq_str(cmd, "drag") || eq_str(cmd, "replace") {
            match self.active_of(side) {
                Some(o) => t_remove(&mut self.transformed, side, &o),
                None => {},
            }
            t_remove(&mut self.transformed, side, &name);
            if p.len() > 3 {
                assert(pv[3] == p@[3]@);
                let det = split_chars(&p[3], ',');
                assert(views(det@)[0] == det@[0]@);
                let species = toid_chars(&det[0]);
                if species.len() > 0 {
                    self.ev.note_species(side, species, &name);
                }
            }
            self.set_active(side, Some(name));
            return;
        }
        if eq_str(cmd, "-transform") {
            t_insert(&mut self.transformed, side, &name);
            return;
        }
        if eq_str(cmd, "-end") && p.len() > 3 {
            assert(pv[3] == p@[3]@);
            let effect = toid_chars(&p[3]);
            if eq_str(&effect, "transform") {
                t_remove(&mut self.transformed, side, &name);
                return;
            }
        }
        if eq_str(cmd, "faint") {
            t_remove(&mut self.transformed, side, &name);
            match self.active_of(side) {
                Some(o) => {
                    if eq_chars(&o, &name) {
                        self.set_active(side, None);
                    }
                },
                None => {},
            }
            return;
        }
        if eq_str(cmd, "move") {
            if t_contains(&self.transformed, side, &name) || p.len() <= 3 {
                return;
            }
            assert(pv[3] == p@[3]@);
            let mv = plain_chars(&toid_chars(&p[3]));
            let skip = match called_key_exec(&p) {
                Some(f) => !eq_chars(&f, &mv) && !eq_str(&f, "sleeptalk"),
                None => false,
            };
            if skip {
                return;
            }
            self.ev.note_move(side, &name, mv);
            return;
        }
        if eq_str(cmd, "-enditem") && contains_str(&chars, "[eat]") {
            if p.len() <= 3 {
                return;
            }
            assert(pv[3] == p@[3]@);
            self.ev.note_item(side, &name, cut, &p[3]);
            return;
        }
    }
}

/// Read a full log for own-set evidence: each mon's revealed moves (not
/// those it used while transformed, nor moves another move called, Sleep
/// Talk's calls excepted), the first item it ate, and the nickname each
/// species first switched in under.
pub fn collect_set_evidence(lines: &[String]) -> (e: SetEvidence)
    ensures
        e.wf(),
        e.model() == evidence_lines(string_views(lines@)).ev,
{
    let mut r = EvidenceReader { ev: SetEvidence::new(), active0: None, active1: None, transformed: Vec::new() };
    proof {
        assert(tset(r.transformed@) =~= Set::<(usize, Seq<char>)>::empty());
        assert(r.model() == evidence_lines(string_views(lines@).take(0)));
    }
    for i in 0..lines.len()
        invariant
            r.ev.wf(),
            r.model() == evidence_lines(string_views(lines@).take(i as int)),
    {
        let ghost lv = string_views(lines@);
        proof {
            assert(lv.take(i + 1).drop_last() =~= lv.take(i as int));
            assert(lv.take(i + 1).last() == lines@[i as int]@);
        }
        r.read_line(i, lines[i].as_str());
    }
    assert(string_views(lines@).take(lines@.len() as int) =~= string_views(lines@));
    r.ev
}


// --------------------------------------------------------------- battles

/// One loaded corpus battle: the kept protocol lines, the full-log own-set
/// evidence, and the observable decisions.
#[derive(Debug)]
pub struct CorpusBattle {
    pub lines: Vec<String>,
    pub evidence: SetEvidence,
    pub decisions: Vec<Decision>,
}

/// A line without the carriage return of a `\r\n` ending.
pub open spec fn strip_cr(s: Seq<char>) -> Seq<char> {
    if s.len() > 0 && s.last() == '\r' {
        s.drop_last()
    } else {
        s
    }
}

/// `text.lines()`: the `\n`-separated lines, each `\r\n` ending removed, no
/// line after a final line ending.
pub open spec fn lines_spec(text: Seq<char>) -> Seq<Seq<char>> {
    let f = split_spec(text, '\n');
    let body = f.take(f.len() - 1).map_values(|x: Seq<char>| strip_cr(x));
    if f.last().len() > 0 {
        body.push(f.last())
    } else {
        body
    }
}

/// Join, leave, timestamp, init and title lines carry no battle content.
pub open spec fn is_noise(line: Seq<char>) -> bool {
    let t = field(split_spec(line, '|'), 1);
    t == "j"@ || t == "l"@ || t == "t:"@ || t == "init"@ || t == "title"@ || t.len() == 0
}

/// The lines that are not noise, in order.
pub open spec fn kept_lines(ls: Seq<Seq<char>>) -> Seq<Seq<char>>
    decreases ls.len(),
{
    if ls.len() == 0 {
        ls
    } else if is_noise(ls.last()) {
        kept_lines(ls.drop_last())
    } else {
        kept_lines(ls.drop_last()).push(ls.last())
    }
}

fn is_noise_exec(line: &[char]) -> (r: bool)
    ensures
        r == is_noise(line@),
{
    let p = split_chars(line, '|');
    let t = field_at(&p, 1);
    eq_str(&t, "j") || eq_str(&t, "l") || eq_str(&t, "t:") || eq_str(&t, "init") || eq_str(&t, "title") || t.len() == 0
}

fn strip_cr_exec(s: Vec<char>) -> (r: Vec<char>)
    ensures
        r@ == strip_cr(s@),
{
    let mut s = s;
    if s.len() > 0 && s[s.len() - 1] == '\r' {
        s.pop();
    }
    s
}

/// A corpus battle from the text of its log.
pub fn corpus_battle(text: &str) -> (b: CorpusBattle)
    ensures
        string_views(b.lines@) == kept_lines(lines_spec(text@)),
        b.evidence.wf(),
        b.evidence.model() == evidence_lines(kept_lines(lines_spec(text@))).ev,
        b.decisions@.map_values(|d: Decision| decision_view(d)) == scan_lines(kept_lines(lines_spec(text@))).1,
{
    let chars = chars_of(text);
    let f = split_chars(&chars, '\n');
    let ghost fv = views(f@);
    let ghost ls = lines_spec(text@);
    let mut lines: Vec<String> = Vec::new();
    let n = f.len();
    let ghost body = fv.take(fv.len() - 1).map_values(|x: Seq<char>| strip_cr(x));
    assert(ls == if fv.last().len() > 0 { body.push(fv.last()) } else { body });
    for i in 0..n
        invariant
            n == f@.len(),
            n >= 1,
            fv == views(f@),
            fv == split_spec(text@, '\n'),
            body == fv.take(fv.len() - 1).map_values(|x: Seq<char>| strip_cr(x)),
            ls == (if fv.last().len() > 0 { body.push(fv.last()) } else { body }),
            string_views(lines@) == kept_lines(ls.take(if (i as int) <= ls.len() { i as int } else { ls.len() as int })),
    {
        assert(fv[i as int] == f@[i as int]@);
        if i + 1 < n {
            let line = strip_cr_exec(copy_chars(&f[i]));
            assert(ls[i as int] == line@);
            assert(ls.take(i + 1).drop_last() =~= ls.take(i as int));
            if !is_noise_exec(&line) {
                let ghost before = string_views(lines@);
                lines.push(text_of(&line));
                assert(string_views(lines@) =~= before.push(line@));
            }
        } else if f[i].len() > 0 {
            assert(ls.len() == n);
            assert(ls[i as int] == f@[i as int]@);
            assert(ls.take(i + 1).drop_last() =~= ls.take(i as int));
            if !is_noise_exec(&f[i]) {
                let ghost before = string_views(lines@);
                lines.push(text_of(&f[i]));
                assert(string_views(lines@) =~= before.push(f@[i as int]@));
            }
        } else {
            assert(ls.len() == i);
        }
    }
    assert(ls.take(ls.len() as int) =~= ls);
    let evidence = collect_set_evidence(&lines);
    let decisions = extract_decisions(&lines);
    CorpusBattle { lines, evidence, decisions }
}

} // verus!
