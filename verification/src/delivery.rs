//! Places of a delivery network and how they are read and written.

use vstd::prelude::*;

use std::collections::HashMap;

use crate::text::{decimal, is_digit, lemma_read_written, parse_u32, push_char, push_decimal, str_chars, u32_of, unsigned_body};

verus! {

/// A place in the street network: the start, the goal, or a numbered crossing.
#[derive(Clone, Copy, Debug, PartialEq, Eq, Hash, Structural)]
pub enum LocationType {
    Start,
    Goal,
    Num(u32),
}

/// A place on a printed route, with the production step of the factory there.
#[derive(Clone, Copy, Debug, PartialEq, Eq, Structural)]
pub struct RouteNode {
    pub loc: LocationType,
    pub step: Option<u32>,
}

/// How a place is written: `S`, `T`, or its number.
pub open spec fn location_text(loc: LocationType, step: Option<u32>) -> Seq<char> {
    match loc {
        LocationType::Start => seq!['S'],
        LocationType::Goal => seq!['T'],
        LocationType::Num(id) => match step {
            Some(s) => seq!['['] + decimal(id as nat) + seq![' '] + decimal(s as nat) + seq![']'],
            None => decimal(id as nat),
        },
    }
}

/// The place that a word of the input names, if any: `S`, `T` or a `u32`.
pub open spec fn location_of(s: Seq<char>) -> Option<LocationType> {
    if s == seq!['S'] {
        Some(LocationType::Start)
    } else if s == seq!['T'] {
        Some(LocationType::Goal)
    } else {
        match u32_of(s) {
            Some(n) => Some(LocationType::Num(n)),
            None => None,
        }
    }
}

/// Reading back what writing gives: a place written without a step reads as that
/// place.
pub proof fn lemma_location_read_written(l: LocationType)
    ensures
        location_of(location_text(l, None)) == Some(l),
{
    if let LocationType::Num(n) = l {
        lemma_read_written(n);
        let t = decimal(n as nat);
        assert(u32_of(t) is Some);
        assert(t != seq!['S'] && t != seq!['T']) by {
            if t.len() == 1 {
                assert(unsigned_body(t) == t);
                assert(is_digit(t[0]));
            }
        }
    }
}

impl RouteNode {
    /// The place as printed on a route: `S`, `T`, `[id step]` for a factory with
    /// its step, or the bare number.
    pub fn format(&self) -> (r: String)
        ensures
            r@ == location_text(self.loc, self.step),
    {
        let mut r = String::new();
        match self.loc {
            LocationType::Start => push_char(&mut r, 'S'),
            LocationType::Goal => push_char(&mut r, 'T'),
            LocationType::Num(id) => {
                match self.step {
                    Some(s) => {
                        push_char(&mut r, '[');
                        push_decimal(&mut r, id);
                        push_char(&mut r, ' ');
                        push_decimal(&mut r, s);
                        push_char(&mut r, ']');
                    },
                    None => push_decimal(&mut r, id),
                }
            },
        }
        assert(r@ =~= location_text(self.loc, self.step));
        r
    }
}

impl LocationType {
    /// Reads a place: `S`, `T` or a number; anything else is refused with the
    /// message `Invalid location: ` followed by the word.
    pub fn from_str(s: &str) -> (r: Result<LocationType, String>)
        ensures
            match r {
                Ok(loc) => location_of(s@) == Some(loc),
                Err(msg) => location_of(s@) is None && msg@ == invalid_location_message(s@),
            },
    {
        let cs = str_chars(s);
        if cs.len() == 1 && cs[0] == 'S' {
            assert(s@ =~= seq!['S']);
            return Ok(LocationType::Start);
        }
        if cs.len() == 1 && cs[0] == 'T' {
            assert(s@ =~= seq!['T']);
            return Ok(LocationType::Goal);
        }
        assert(s@ != seq!['S']) by {
            if s@ == seq!['S'] {
                assert(cs@[0] == 'S');
            }
        }
        assert(s@ != seq!['T']) by {
            if s@ == seq!['T'] {
                assert(cs@[0] == 'T');
            }
        }
        match parse_u32(&cs) {
            Some(n) => {
                assert(u32_of(s@) == Some(n));
                assert(location_of(s@) == Some(LocationType::Num(n)));
                Ok(LocationType::Num(n))
            },
            None => {
                let mut msg = String::new();
                push_str(&mut msg, "Invalid location: ");
                push_str(&mut msg, s);
                proof {
                    reveal_strlit("Invalid location: ");
                    assert(msg@ =~= invalid_location_message(s@));
                }
                Err(msg)
            },
        }
    }
}

/// The error text for a word that names no place.
pub open spec fn invalid_location_message(s: Seq<char>) -> Seq<char> {
    seq!['I', 'n', 'v', 'a', 'l', 'i', 'd', ' ', 'l', 'o', 'c', 'a', 't', 'i', 'o', 'n', ':', ' '] + s
}

/// Appends a string slice.
pub(crate) fn push_str(s: &mut String, t: &str)
    ensures
        final(s)@ == old(s)@ + t@,
{
    let cs = str_chars(t);
    let mut i: usize = 0;
    let ghost start = s@;
    while i < cs.len()
        invariant
            i <= cs.len(),
            cs@ == t@,
            s@ == start + t@.take(i as int),
        decreases cs.len() - i,
    {
        push_char(s, cs[i]);
        i += 1;
        assert(s@ =~= start + t@.take(i as int));
    }
    assert(t@.take(cs.len() as int) =~= t@);
}

/// A delivery task: the time limit, the number of production steps, the factories
/// with their steps (also grouped by step, index 0 unused), and the streets.
#[derive(Debug)]
pub struct ProblemData {
    pub max_time: u32,
    pub count_steps: u32,
    pub factories: Vec<(u32, u32)>,
    pub grouped_factories: Vec<Vec<u32>>,
    pub streets: Vec<(LocationType, LocationType, u32)>,
    pub factory_to_step: HashMap<u32, u32>,
}

/// The factories grouped by step, as sequences.
pub open spec fn groups_of(data: ProblemData) -> Seq<Seq<u32>> {
    Seq::new(data.grouped_factories@.len(), |i: int| data.grouped_factories@[i]@)
}

/// Reads a value of a map keyed by factory number.
pub fn map_get<V: Copy>(m: &HashMap<u32, V>, k: u32) -> (r: Option<V>)
    ensures
        r == (if m@.contains_key(k) { Some(m@[k]) } else { None::<V> }),
{
    broadcast use vstd::std_specs::hash::group_hash_axioms;
    match m.get(&k) {
        Some(v) => Some(*v),
        None => None,
    }
}

} // verus!
