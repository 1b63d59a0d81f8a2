use vstd::prelude::*;
use crate::coord::{coord_of, coord_text, lemma_coord_round_trip, lemma_digits_free_of, Coord};
use crate::text::{
    chars_of, copy_range, dec_text, decimal_of, free_of, is_digit, join,
    lemma_dec_text_digits, lemma_split_join, parse_decimal, push_decimal, split, split_ranges,
    string_of,
};

verus! {

/// What an entity is, as the contracts speak of it.
pub struct EntityView {
    pub id: nat,
    pub name: Seq<char>,
    pub x: int,
    pub y: int,
}

/// A live object of the simulation.
#[derive(Debug)]
pub struct Entity {
    pub id: u64,
    pub name: String,
    pub x: Coord,
    pub y: Coord,
}

impl View for Entity {
    type V = EntityView;

    open spec fn view(&self) -> EntityView {
        EntityView { id: self.id as nat, name: self.name@, x: self.x.milli as int, y: self.y.milli as int }
    }
}

pub open spec fn views(es: Seq<Entity>) -> Seq<EntityView> {
    es.map_values(|e: Entity| e@)
}

/// A name that the wire format carries unchanged: no `:` and no `;`.
pub open spec fn valid_name(name: Seq<char>) -> bool {
    free_of(name, ':') && free_of(name, ';')
}

/// The record `<id>:<name>:<x>,<y>` of one entity.
pub open spec fn record_text(e: EntityView) -> Seq<char> {
    dec_text(e.id).push(':') + e.name.push(':') + coord_text(e.x).push(',') + coord_text(e.y)
}

pub open spec fn record_texts(es: Seq<EntityView>) -> Seq<Seq<char>> {
    es.map_values(|e: EntityView| record_text(e))
}

/// The records of `es` joined by `;`; no entity gives the empty string.
pub open spec fn world_text(es: Seq<EntityView>) -> Seq<char> {
    join(record_texts(es), ';')
}

/// The entity that the record `r` describes, if it is one.
pub open spec fn record_of(r: Seq<char>) -> Option<EntityView> {
    let fields = split(r, ':');
    if fields.len() != 3 {
        None
    } else {
        let pos = split(fields[2], ',');
        if pos.len() != 2 {
            None
        } else {
            match (decimal_of(fields[0], u64::MAX as nat), coord_of(pos[0]), coord_of(pos[1])) {
                (Some(id), Some(x), Some(y)) => Some(EntityView { id, name: fields[1], x, y }),
                _ => None,
            }
        }
    }
}

pub open spec fn records_of(rs: Seq<Seq<char>>) -> Option<Seq<EntityView>>
    decreases rs.len(),
{
    if rs.len() == 0 {
        Some(Seq::empty())
    } else {
        match (records_of(rs.drop_last()), record_of(rs.last())) {
            (Some(a), Some(e)) => Some(a.push(e)),
            _ => None,
        }
    }
}

/// The entities that the text `t` lists, if it is a list of records.
pub open spec fn entities_of(t: Seq<char>) -> Option<Seq<EntityView>> {
    if t.len() == 0 {
        Some(Seq::empty())
    } else {
        records_of(split(t, ';'))
    }
}

proof fn lemma_records_none_extends(rs: Seq<Seq<char>>, k: int)
    requires
        0 <= k <= rs.len(),
        records_of(rs.take(k)) is None,
    ensures
        records_of(rs) is None,
    decreases rs.len() - k,
{
    if k < rs.len() {
        assert(rs.take(k + 1).drop_last() == rs.take(k));
        lemma_records_none_extends(rs, k + 1);
    } else {
        assert(rs.take(k) == rs);
    }
}

proof fn lemma_coord_text_chars(m: int, c: char)
    requires
        c == ':' || c == ';' || c == ',',
    ensures
        free_of(coord_text(m), c),
{
    let a = if m < 0 { (-m) as nat } else { m as nat };
    lemma_dec_text_digits(a / 1000);
    let t = coord_text(m);
    if t.contains(c) {
        let i = choose|i: int| 0 <= i < t.len() && t[i] == c;
        let w = dec_text(a / 1000);
        let sign = if m < 0 { seq!['-'] } else { Seq::<char>::empty() };
        if i < sign.len() {
            assert(t[i] == '-');
        } else if i < sign.len() + w.len() {
            assert(t[i] == w[i - sign.len()]);
            assert(is_digit(w[i - sign.len()]));
        } else if i == sign.len() + w.len() {
            assert(t[i] == '.');
        } else {
            let f = (a % 1000) as int;
            let j = i - sign.len() - w.len() - 1;
            assert(t[i] == crate::coord::frac_digits(f)[j]);
        }
    }
}

/// A record reads back as the entity it was written from.
pub proof fn lemma_record_round_trip(e: EntityView)
    requires
        valid_name(e.name),
        e.id <= u64::MAX,
        i32::MIN <= e.x <= i32::MAX,
        i32::MIN <= e.y <= i32::MAX,
    ensures
        record_of(record_text(e)) == Some(e),
        free_of(record_text(e), ';'),
        record_text(e).len() > 0,
{
    let id = dec_text(e.id);
    let xt = coord_text(e.x);
    let yt = coord_text(e.y);
    lemma_dec_text_digits(e.id);
    lemma_digits_free_of(id, ':');
    lemma_digits_free_of(id, ';');
    lemma_coord_text_chars(e.x, ':');
    lemma_coord_text_chars(e.x, ';');
    lemma_coord_text_chars(e.x, ',');
    lemma_coord_text_chars(e.y, ':');
    lemma_coord_text_chars(e.y, ';');
    lemma_coord_text_chars(e.y, ',');
    let pos = xt.push(',') + yt;
    let pparts = seq![xt, yt];
    assert(pparts.drop_last() =~= seq![xt]);
    assert(join(seq![xt], ',') == xt);
    assert(join(pparts, ',') == pos);
    lemma_split_join(pparts, ',');
    assert(free_of(pos, ':')) by {
        if pos.contains(':') {
            let i = choose|i: int| 0 <= i < pos.len() && pos[i] == ':';
            if i < xt.len() {
                assert(pos[i] == xt[i]);
            } else if i > xt.len() {
                assert(pos[i] == yt[i - xt.len() - 1]);
            }
        }
    }
    let fields = seq![id, e.name, pos];
    assert(fields.drop_last() =~= seq![id, e.name]);
    assert(seq![id, e.name].drop_last() =~= seq![id]);
    assert(join(seq![id], ':') == id);
    assert(join(seq![id, e.name], ':') == id.push(':') + e.name);
    assert(join(fields, ':') =~= record_text(e));
    assert forall|i: int| 0 <= i < fields.len() implies free_of(#[trigger] fields[i], ':') by {}
    lemma_split_join(fields, ':');
    lemma_coord_round_trip(e.x);
    lemma_coord_round_trip(e.y);
    assert(decimal_of(id, u64::MAX as nat) == Some(e.id));
    let r = record_text(e);
    assert(free_of(r, ';')) by {
        if r.contains(';') {
            let i = choose|i: int| 0 <= i < r.len() && r[i] == ';';
            if i < id.len() {
                assert(r[i] == id[i]);
            } else if i == id.len() {
                assert(r[i] == ':');
            } else if i < id.len() + 1 + e.name.len() {
                assert(r[i] == e.name[i - id.len() - 1]);
            } else if i == id.len() + 1 + e.name.len() {
                assert(r[i] == ':');
            } else {
                let j = i - id.len() - 2 - e.name.len();
                assert(r[i] == pos[j]);
                if j < xt.len() {
                    assert(pos[j] == xt[j]);
                } else if j > xt.len() {
                    assert(pos[j] == yt[j - xt.len() - 1]);
                }
            }
        }
    }
}

/// Every entity that can stand in a state: a name the wire format carries,
/// and coordinates in range.
pub open spec fn storable(e: EntityView) -> bool {
    &&& valid_name(e.name)
    &&& e.id <= u64::MAX
    &&& i32::MIN <= e.x <= i32::MAX
    &&& i32::MIN <= e.y <= i32::MAX
}

proof fn lemma_records_round_trip(es: Seq<EntityView>)
    requires
        forall|i: int| 0 <= i < es.len() ==> storable(#[trigger] es[i]),
    ensures
        records_of(record_texts(es)) == Some(es),
    decreases es.len(),
{
    if es.len() > 0 {
        let init = es.drop_last();
        assert forall|i: int| 0 <= i < init.len() implies storable(#[trigger] init[i]) by {
            assert(init[i] == es[i]);
        }
        lemma_records_round_trip(init);
        assert(record_texts(es).drop_last() =~= record_texts(init));
        assert(storable(es[es.len() - 1]));
        lemma_record_round_trip(es.last());
        assert(record_texts(es).last() == record_text(es.last()));
        assert(init.push(es.last()) =~= es);
    }
}

/// Parsing the serialized form of a set of entities gives back the same
/// entities, in the same order; no entities serialize to the empty string.
pub proof fn lemma_parse_serialize(es: Seq<EntityView>)
    requires
        forall|i: int| 0 <= i < es.len() ==> storable(#[trigger] es[i]),
    ensures
        entities_of(world_text(es)) == Some(es),
        es.len() == 0 <==> world_text(es).len() == 0,
{
    let rs = record_texts(es);
    if es.len() == 0 {
        assert(world_text(es) == Seq::<char>::empty());
    } else {
        assert forall|i: int| 0 <= i < rs.len() implies free_of(#[trigger] rs[i], ';') by {
            lemma_record_round_trip(es[i]);
        }
        lemma_split_join(rs, ';');
        lemma_records_round_trip(es);
        lemma_record_round_trip(es.last());
        assert(rs.last() == record_text(es.last()));
        if rs.len() == 1 {
            assert(world_text(es) == rs[0]);
        } else {
            assert(world_text(es) == join(rs.drop_last(), ';').push(';') + rs.last());
        }
    }
}

/// The canonical state that the simulation authority owns: the live
/// entities, in the order they were spawned, and the next id to give out.
pub struct GameState {
    pub entities: Vec<Entity>,
    next_id: u64,
}

impl View for GameState {
    type V = Seq<EntityView>;

    closed spec fn view(&self) -> Seq<EntityView> {
        views(self.entities@)
    }
}

impl GameState {
    /// Ids run from 1 in spawn order.
    pub closed spec fn wf(&self) -> bool {
        &&& self.next_id == self.entities@.len() + 1
        &&& forall|i: int| 0 <= i < self.entities@.len() ==> (#[trigger] self.entities@[i]).id == i + 1
    }

    pub closed spec fn spec_next_id(&self) -> u64 {
        self.next_id
    }

    /// A state with no entities, whose first id is 1.
    pub fn new() -> (r: GameState)
        ensures
            r.wf(),
            r@ == Seq::<EntityView>::empty(),
            r.spec_next_id() == 1,
    {
        GameState { entities: Vec::new(), next_id: 1 }
    }

    /// In a well-formed state the ids are 1, 2, 3, ... in order, so they are
    /// strictly increasing and no two entities share one.
    pub proof fn lemma_ids(&self)
        requires
            self.wf(),
        ensures
            self.spec_next_id() == self@.len() + 1,
            forall|i: int| 0 <= i < self@.len() ==> (#[trigger] self@[i]).id == i + 1,
            forall|i: int, j: int| 0 <= i < j < self@.len() ==> self@[i].id < self@[j].id,
            forall|i: int|
                0 <= i < self@.len() ==> i32::MIN <= (#[trigger] self@[i]).x <= i32::MAX && i32::MIN
                    <= self@[i].y <= i32::MAX && self@[i].id <= u64::MAX,
    {
        assert forall|i: int| 0 <= i < self@.len() implies i32::MIN <= (#[trigger] self@[i]).x
            <= i32::MAX && i32::MIN <= self@[i].y <= i32::MAX && self@[i].id <= u64::MAX by {
            assert(self@[i] == self.entities@[i]@);
        }
        assert forall|i: int| 0 <= i < self@.len() implies (#[trigger] self@[i]).id == i + 1 by {
            assert(self@[i] == self.entities@[i]@);
        }
        assert forall|i: int, j: int| 0 <= i < j < self@.len() implies self@[i].id < self@[j].id by {
            assert(self@[i] == self.entities@[i]@);
            assert(self@[j] == self.entities@[j]@);
        }
    }

    /// Parsing what `serialize` gives back yields this state's entities, in
    /// order, wherever no name holds `:` or `;`.
    pub proof fn lemma_state_round_trip(&self)
        requires
            self.wf(),
            forall|i: int| 0 <= i < self@.len() ==> valid_name(#[trigger] self@[i].name),
        ensures
            entities_of(world_text(self@)) == Some(self@),
    {
        self.lemma_ids();
        assert forall|i: int| 0 <= i < self@.len() implies storable(#[trigger] self@[i]) by {
            assert(valid_name(self@[i].name));
        }
        lemma_parse_serialize(self@);
    }

    /// The id that the next spawn will give.
    pub fn next_id(&self) -> (r: u64)
        ensures
            r == self.spec_next_id(),
    {
        self.next_id
    }

    /// Adds an entity under the next id and returns that id.
    pub fn spawn(&mut self, name: String, x: Coord, y: Coord) -> (id: u64)
        requires
            old(self).wf(),
            old(self).spec_next_id() < u64::MAX,
        ensures
            final(self).wf(),
            id == old(self).spec_next_id(),
            id == old(self)@.len() + 1,
            final(self).spec_next_id() == id + 1,
            final(self)@ == old(self)@.push(EntityView { id: id as nat, name: name@, x: x.milli as int, y: y.milli as int }),
            forall|i: int| 0 <= i < old(self)@.len() ==> (#[trigger] old(self)@[i]).id < id,
    {
        let id = self.next_id;
        self.next_id = self.next_id + 1;
        let e = Entity { id, name, x, y };
        self.entities.push(e);
        proof {
            assert(self@ =~= old(self)@.push(e@));
            assert forall|i: int| 0 <= i < old(self)@.len() implies (#[trigger] old(self)@[i]).id < id by {
                assert(old(self)@[i] == old(self).entities@[i]@);
            }
        }
        id
    }

    /// Moves the entity with id `id`, if there is one; returns whether there was.
    pub fn place(&mut self, id: u64, x: Coord, y: Coord) -> (found: bool)
        requires
            old(self).wf(),
        ensures
            final(self).wf(),
            final(self).spec_next_id() == old(self).spec_next_id(),
            found == (1 <= id <= old(self)@.len()),
            found ==> final(self)@ == old(self)@.update(id - 1, EntityView { x: x.milli as int, y: y.milli as int, ..old(self)@[id - 1] }),
            !found ==> final(self)@ == old(self)@,
    {
        if id == 0 || id > self.entities.len() as u64 {
            return false;
        }
        let k = (id - 1) as usize;
        let e = Entity { id: self.entities[k].id, name: self.entities[k].name.clone(), x, y };
        self.entities.set(k, e);
        proof {
            assert(self@ =~= old(self)@.update(id - 1, EntityView { x: x.milli as int, y: y.milli as int, ..old(self)@[id - 1] }));
        }
        true
    }

    /// The wire form of all entities: their records, in id order, joined by `;`.
    pub fn serialize(&self) -> (r: String)
        requires
            self.wf(),
        ensures
            r@ == world_text(self@),
    {
        let mut out: Vec<char> = Vec::new();
        let mut i: usize = 0;
        while i < self.entities.len()
            invariant
                0 <= i <= self.entities@.len(),
                out@ == world_text(self@.take(i as int)),
            decreases self.entities@.len() - i,
        {
            let ghost before = out@;
            if i > 0 {
                out.push(';');
            }
            let e = &self.entities[i];
            push_decimal(&mut out, e.id);
            out.push(':');
            let name = chars_of(e.name.as_str());
            let mut k: usize = 0;
            let ghost mid = out@;
            while k < name.len()
                invariant
                    0 <= k <= name@.len(),
                    out@ == mid + name@.take(k as int),
                decreases name@.len() - k,
            {
                out.push(name[k]);
                k = k + 1;
                assert(name@.take(k as int) == name@.take(k - 1).push(name@[k - 1]));
            }
            assert(name@.take(name@.len() as int) == name@);
            out.push(':');
            e.x.push_text(&mut out);
            out.push(',');
            e.y.push_text(&mut out);
            proof {
                let ev = self@[i as int];
                assert(ev == e@);
                let rec = record_text(ev);
                assert(out@ =~= if i > 0 { before.push(';') + rec } else { before + rec });
                let rs = record_texts(self@.take(i + 1));
                assert(rs.drop_last() =~= record_texts(self@.take(i as int)));
                assert(rs.last() == rec);
                if i == 0 {
                    assert(before == Seq::<char>::empty());
                    assert(rs.len() == 1);
                }
            }
            i = i + 1;
        }
        assert(self@.take(self.entities@.len() as int) =~= self@);
        string_of(out.as_slice())
    }
}

/// Reads one record from `s[lo..hi]`.
fn parse_record(s: &Vec<char>, lo: usize, hi: usize) -> (r: Option<Entity>)
    requires
        lo <= hi <= s@.len(),
    ensures
        match record_of(s@.subrange(lo as int, hi as int)) {
            Some(e) => r is Some && r->0@ == e,
            None => r is None,
        },
{
    let fields = split_ranges(s, lo, hi, ':');
    if fields.len() != 3 {
        return None;
    }
    let ghost fs = split(s@.subrange(lo as int, hi as int), ':');
    assert(s@.subrange(fields[0].0 as int, fields[0].1 as int) == fs[0]);
    assert(s@.subrange(fields[1].0 as int, fields[1].1 as int) == fs[1]);
    assert(s@.subrange(fields[2].0 as int, fields[2].1 as int) == fs[2]);
    let pos = split_ranges(s, fields[2].0, fields[2].1, ',');
    if pos.len() != 2 {
        return None;
    }
    let ghost ps = split(fs[2], ',');
    assert(s@.subrange(pos[0].0 as int, pos[0].1 as int) == ps[0]);
    assert(s@.subrange(pos[1].0 as int, pos[1].1 as int) == ps[1]);
    let id = parse_decimal(s, fields[0].0, fields[0].1, u64::MAX);
    let x = Coord::parse(s, pos[0].0, pos[0].1);
    let y = Coord::parse(s, pos[1].0, pos[1].1);
    match (id, x, y) {
        (Some(id), Some(x), Some(y)) => {
            let name_chars = copy_range(s, fields[1].0, fields[1].1);
            let name = string_of(name_chars.as_slice());
            Some(Entity { id, name, x, y })
        },
        _ => None,
    }
}

/// Reads the entities that a serialized state lists; `None` where `text` is
/// not such a list.
pub fn parse_entities(text: &str) -> (r: Option<Vec<Entity>>)
    ensures
        match entities_of(text@) {
            Some(es) => r is Some && views(r->0@) == es,
            None => r is None,
        },
{
    let s = chars_of(text);
    let mut out: Vec<Entity> = Vec::new();
    if s.len() == 0 {
        assert(views(out@) =~= Seq::<EntityView>::empty());
        return Some(out);
    }
    let ranges = split_ranges(&s, 0, s.len(), ';');
    let ghost rs = split(s@, ';');
    assert(s@.subrange(0, s@.len() as int) == s@);
    let mut k: usize = 0;
    while k < ranges.len()
        invariant
            0 <= k <= ranges@.len(),
            ranges@.len() == rs.len(),
            rs == split(s@, ';'),
            s@ == text@,
            s@.len() > 0,
            forall|j: int|
                0 <= j < ranges@.len() ==> {
                    &&& 0 <= (#[trigger] ranges@[j]).0 <= ranges@[j].1 <= s@.len()
                    &&& s@.subrange(ranges@[j].0 as int, ranges@[j].1 as int) == rs[j]
                },
            records_of(rs.take(k as int)) == Some(views(out@)),
        decreases ranges@.len() - k,
    {
        let (lo, hi) = ranges[k];
        assert(rs.take(k + 1).drop_last() == rs.take(k as int));
        assert(rs.take(k + 1).last() == rs[k as int]);
        assert(s@.subrange(lo as int, hi as int) == rs[k as int]);
        match parse_record(&s, lo, hi) {
            None => {
                proof {
                    assert(records_of(rs.take(k + 1)) is None);
                    lemma_records_none_extends(rs, k + 1);
                }
                return None;
            },
            Some(e) => {
                let ghost prev = out@;
                out.push(e);
                assert(views(out@) =~= views(prev).push(e@));
            },
        }
        k = k + 1;
    }
    assert(rs.take(rs.len() as int) == rs);
    Some(out)
}

} // verus!
