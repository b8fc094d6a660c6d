//! The input formats: the planted trees of a field, stick-figure drawings, and
//! delivery tasks.

use vstd::prelude::*;

use crate::delivery::{groups_of, location_of, LocationType, ProblemData};
use crate::delivery::{invalid_location_message, push_str};
use crate::text::{number_error, parse_u32, push_char, parse_usize, u32_of, usize_of, why_not_u32, NumberError};
use crate::trees::Tree;
use crate::words::{char_rows, lines, split_lines, split_words, words};

verus! {

/// Every word reads as a `u32`.
pub open spec fn all_u32(ws: Seq<Seq<char>>) -> bool {
    forall|i: int| 0 <= i < ws.len() ==> #[trigger] u32_of(ws[i]) is Some
}

/// The value of a word that reads as a `u32`.
pub open spec fn val(w: Seq<char>) -> u32 {
    u32_of(w).unwrap()
}

/// A field of trees, read from its words: the time limit, the number `n` of trees,
/// then number, x and y of each tree. `None` when a word is missing or is no `u32`;
/// words after the last tree are not read.
pub open spec fn field_of(ws: Seq<Seq<char>>) -> Option<(u32, Seq<Tree>)> {
    if ws.len() < 2 || u32_of(ws[0]) is None || u32_of(ws[1]) is None {
        None
    } else {
        let n = val(ws[1]) as int;
        if ws.len() < 2 + 3 * n || !all_u32(ws.subrange(2, 2 + 3 * n)) {
            None
        } else {
            Some(
                (
                    val(ws[0]),
                    Seq::new(
                        n as nat,
                        |k: int| Tree { id: val(ws[2 + 3 * k]), x: val(ws[3 + 3 * k]), y: val(ws[4 + 3 * k]) },
                    ),
                ),
            )
        }
    }
}

/// Reads a field of trees from the text of its file: the time limit and the trees.
pub fn parse_field(text: &Vec<char>) -> (r: Option<(u32, Vec<Tree>)>)
    ensures
        match r {
            Some((m, ts)) => field_of(words(text@)) == Some((m, ts@)),
            None => field_of(words(text@)) is None,
        },
{
    let ws = split_words(text);
    let ghost wv = char_rows(ws@);
    assert(wv == words(text@));
    if ws.len() < 2 {
        return None;
    }
    assert(wv[0] == ws@[0]@ && wv[1] == ws@[1]@);
    let max_time = match parse_u32(&ws[0]) {
        Some(v) => v,
        None => {
            return None;
        },
    };
    let n = match parse_u32(&ws[1]) {
        Some(v) => v,
        None => {
            return None;
        },
    };
    if (ws.len() - 2) / 3 < n as usize {
        assert(ws.len() < 2 + 3 * n);
        return None;
    }
    let mut trees: Vec<Tree> = Vec::new();
    let mut k: usize = 0;
    while k < n as usize
        invariant
            wv == char_rows(ws@),
            wv == words(text@),
            ws@.len() >= 2 + 3 * n,
            k <= n,
            u32_of(wv[0]) == Some(max_time),
            u32_of(wv[1]) == Some(n),
            all_u32(wv.subrange(2, 2 + 3 * k)),
            trees@ == Seq::new(
                k as nat,
                |j: int| Tree { id: val(wv[2 + 3 * j]), x: val(wv[3 + 3 * j]), y: val(wv[4 + 3 * j]) },
            ),
        decreases n - k,
    {
        assert(3 * k + 3 <= 3 * n) by (nonlinear_arith)
            requires
                k < n,
        ;
        let b = 2 + 3 * k;
        assert(wv[b as int] == ws@[b as int]@ && wv[b + 1] == ws@[b + 1]@ && wv[b + 2] == ws@[b + 2]@);
        let id = parse_u32(&ws[b]);
        let x = parse_u32(&ws[b + 1]);
        let y = parse_u32(&ws[b + 2]);
        if id.is_none() || x.is_none() || y.is_none() {
            proof {
                let bad: int = if id.is_none() { b as int } else if x.is_none() { b + 1 } else { b + 2 };
                assert(u32_of(wv[bad]) is None);
                assert(bad - 2 < 3 * n);
                assert(wv.subrange(2, 2 + 3 * n)[bad - 2] == wv[bad]);
                assert(!all_u32(wv.subrange(2, 2 + 3 * n)));
            }
            return None;
        }
        let ghost before = trees@;
        trees.push(Tree { id: id.unwrap(), x: x.unwrap(), y: y.unwrap() });
        proof {
            let s1 = wv.subrange(2, 2 + 3 * k);
            let s2 = wv.subrange(2, 2 + 3 * (k + 1));
            assert forall|i: int| 0 <= i < s2.len() implies #[trigger] u32_of(s2[i]) is Some by {
                if i < s1.len() {
                    assert(s2[i] == s1[i]);
                } else {
                    assert(s2[i] == wv[2 + i]);
                }
            }
            assert(trees@ =~= Seq::new(
                (k + 1) as nat,
                |j: int| Tree { id: val(wv[2 + 3 * j]), x: val(wv[3 + 3 * j]), y: val(wv[4 + 3 * j]) },
            ));
        }
        k += 1;
    }
    Some((max_time, trees))
}

/// Every word reads as a `usize`.
pub open spec fn all_usize(ws: Seq<Seq<char>>) -> bool {
    forall|i: int| 0 <= i < ws.len() ==> #[trigger] usize_of(ws[i]) is Some
}

/// The number of drawing rows that a header line announces: its words are numbers,
/// the second, `h`, at least 1, and the drawing has `2h - 1` rows. `None` for a
/// malformed header.
pub open spec fn header_rows(l: Seq<char>) -> Option<int> {
    let w = words(l);
    if w.len() >= 2 && all_usize(w) && 1 <= usize_of(w[1]).unwrap() && 2 * usize_of(w[1]).unwrap() <= usize::MAX {
        Some(2 * usize_of(w[1]).unwrap() - 1)
    } else {
        None
    }
}

/// The drawings in the lines from `i` on: blank lines are skipped, and each header
/// line is followed by the rows of its drawing. `None` for a malformed header or a
/// drawing cut short.
pub open spec fn drawings_from(ls: Seq<Seq<char>>, i: int) -> Option<Seq<Seq<Seq<char>>>>
    decreases ls.len() - i,
{
    if i < 0 || i >= ls.len() {
        Some(Seq::empty())
    } else if words(ls[i]).len() == 0 {
        drawings_from(ls, i + 1)
    } else {
        match header_rows(ls[i]) {
            None => None,
            Some(rows) => if i + 1 + rows > ls.len() {
                None
            } else {
                match drawings_from(ls, i + 1 + rows) {
                    None => None,
                    Some(rest) => Some(seq![ls.subrange(i + 1, i + 1 + rows)] + rest),
                }
            },
        }
    }
}

/// `r` with `acc` in front, unless `r` is `None`.
pub open spec fn after(acc: Seq<Seq<Seq<char>>>, r: Option<Seq<Seq<Seq<char>>>>) -> Option<Seq<Seq<Seq<char>>>> {
    match r {
        None => None,
        Some(rest) => Some(acc + rest),
    }
}

/// The drawings as sequences of rows.
pub open spec fn drawings_view(ds: Seq<Vec<Vec<char>>>) -> Seq<Seq<Seq<char>>> {
    ds.map_values(|d: Vec<Vec<char>>| char_rows(d@))
}

fn header(l: &Vec<char>) -> (r: Option<usize>)
    ensures
        match r {
            Some(rows) => header_rows(l@) == Some(rows as int),
            None => header_rows(l@) is None,
        },
{
    let ws = split_words(l);
    let ghost wv = char_rows(ws@);
    if ws.len() < 2 {
        return None;
    }
    let mut i: usize = 0;
    while i < ws.len()
        invariant
            wv == char_rows(ws@),
            wv == words(l@),
            i <= ws.len(),
            forall|k: int| 0 <= k < i ==> #[trigger] usize_of(wv[k]) is Some,
        decreases ws.len() - i,
    {
        assert(wv[i as int] == ws@[i as int]@);
        if parse_usize(&ws[i]).is_none() {
            return None;
        }
        i += 1;
    }
    assert(wv[1] == ws@[1]@);
    let h = parse_usize(&ws[1]).unwrap();
    if h < 1 || h > usize::MAX / 2 {
        return None;
    }
    Some(2 * h - 1)
}

/// Reads the drawings of stick figures from the text of their file: after each
/// header line `w h` follow the `2h - 1` rows of a drawing; blank lines between
/// drawings are skipped.
pub fn parse_drawings(text: &Vec<char>) -> (r: Option<Vec<Vec<Vec<char>>>>)
    ensures
        match r {
            Some(ds) => drawings_from(lines(text@), 0) == Some(drawings_view(ds@)),
            None => drawings_from(lines(text@), 0) is None,
        },
{
    let ls = split_lines(text);
    let ghost lv = char_rows(ls@);
    let mut out: Vec<Vec<Vec<char>>> = Vec::new();
    let mut i: usize = 0;
    while i < ls.len()
        invariant
            lv == char_rows(ls@),
            lv == lines(text@),
            i <= ls.len(),
            drawings_from(lv, 0) == after(drawings_view(out@), drawings_from(lv, i as int)),
        decreases ls.len() - i,
    {
        assert(lv[i as int] == ls@[i as int]@);
        let ws = split_words(&ls[i]);
        if ws.len() == 0 {
            i += 1;
        } else {
            let rows = match header(&ls[i]) {
                Some(rows) => rows,
                None => {
                    return None;
                },
            };
            if rows > ls.len() - i - 1 {
                return None;
            }
            let mut d: Vec<Vec<char>> = Vec::new();
            let mut k: usize = 0;
            while k < rows
                invariant
                    lv == char_rows(ls@),
                    i + 1 + rows <= ls.len(),
                    k <= rows,
                    char_rows(d@) == lv.subrange(i + 1, i + 1 + k),
                decreases rows - k,
            {
                let row = ls[i + 1 + k].clone();
                assert(row@ == lv[i + 1 + k]);
                let ghost before = d@;
                d.push(row);
                assert(char_rows(d@) =~= char_rows(before).push(lv[i + 1 + k]));
                assert(lv.subrange(i + 1, i + 1 + k + 1) =~= lv.subrange(i + 1, i + 1 + k).push(lv[i + 1 + k]));
                k += 1;
            }
            let ghost before = out@;
            let ghost tail = drawings_from(lv, i + 1 + rows);
            out.push(d);
            proof {
                assert(drawings_view(out@) =~= drawings_view(before).push(char_rows(d@)));
                match tail {
                    None => {},
                    Some(rest) => {
                        assert(drawings_view(before) + (seq![char_rows(d@)] + rest) =~= drawings_view(out@) + rest);
                    },
                }
            }
            i = i + 1 + rows;
        }
    }
    assert(drawings_view(out@) + Seq::<Seq<Seq<char>>>::empty() =~= drawings_view(out@));
    Some(out)
}

/// The only word of a line, read as a `u32`: what parsing the trimmed line gives.
pub open spec fn line_u32(l: Seq<char>) -> Option<u32> {
    let w = words(l);
    if w.len() == 1 {
        u32_of(w[0])
    } else {
        None
    }
}

/// A factory line: its words are `u32`s, at least two, the second a step of the task.
pub open spec fn factory_line_ok(l: Seq<char>, steps: u32) -> bool {
    let w = words(l);
    w.len() >= 2 && all_u32(w) && val(w[1]) <= steps
}

/// A street line: two places and a length, then anything.
pub open spec fn street_line_ok(l: Seq<char>) -> bool {
    let w = words(l);
    w.len() >= 3 && location_of(w[0]) is Some && location_of(w[1]) is Some && u32_of(w[2]) is Some
}

/// The lines of a delivery task are well formed: the time limit, the number of steps
/// (less than `u32::MAX`), a line of counts, the number of factories, a line for
/// each factory with its number and step, the number of streets, and a line for
/// each street. Lines after the last street are not read.
pub open spec fn task_text_ok(ls: Seq<Seq<char>>) -> bool {
    &&& ls.len() >= 4
    &&& line_u32(ls[0]) is Some
    &&& line_u32(ls[1]) is Some
    &&& line_u32(ls[1]).unwrap() < u32::MAX
    &&& all_u32(words(ls[2]))
    &&& line_u32(ls[3]) is Some
    &&& ls.len() >= 5 + line_u32(ls[3]).unwrap()
    &&& forall|k: int| 0 <= k < line_u32(ls[3]).unwrap() ==> factory_line_ok(#[trigger] ls[4 + k], line_u32(ls[1]).unwrap())
    &&& line_u32(ls[4 + line_u32(ls[3]).unwrap()]) is Some
    &&& ls.len() >= 5 + line_u32(ls[3]).unwrap() + line_u32(ls[4 + line_u32(ls[3]).unwrap()]).unwrap()
    &&& forall|k: int|
        0 <= k < line_u32(ls[4 + line_u32(ls[3]).unwrap()]).unwrap() ==> street_line_ok(
            #[trigger] ls[5 + line_u32(ls[3]).unwrap() + k],
        )
}

/// Why a delivery task was refused.
#[derive(Clone, Debug, PartialEq, Eq)]
pub enum TaskError {
    /// A line is missing, or a line of counts or of a factory, or a street line with
    /// fewer than three words, cannot be read.
    Malformed,
    /// A line that should hold one number, or the length of a street, holds none.
    Number(NumberError),
    /// A street names no place; the message is `Invalid location: ` and the word.
    Location(String),
}

/// What a refusal says, with the message as text.
pub enum TaskFault {
    /// A line is missing or cannot be read at all.
    Malformed,
    /// A number cannot be read, for this reason.
    Number(NumberError),
    /// A place cannot be read; the message.
    Location(Seq<char>),
}

impl View for TaskError {
    type V = TaskFault;

    open spec fn view(&self) -> TaskFault {
        match self {
            TaskError::Malformed => TaskFault::Malformed,
            TaskError::Number(k) => TaskFault::Number(*k),
            TaskError::Location(m) => TaskFault::Location(m@),
        }
    }
}

/// Why a line is no single `u32`, as parsing the trimmed line reports it.
pub open spec fn line_error(l: Seq<char>) -> NumberError {
    let w = words(l);
    if w.len() == 0 {
        NumberError::Empty
    } else {
        number_error(w[0])
    }
}

/// What is wrong with a street line, if anything.
pub open spec fn street_fault(l: Seq<char>) -> Option<TaskFault> {
    let w = words(l);
    if w.len() < 3 {
        Some(TaskFault::Malformed)
    } else if location_of(w[0]) is None {
        Some(TaskFault::Location(invalid_location_message(w[0])))
    } else if location_of(w[1]) is None {
        Some(TaskFault::Location(invalid_location_message(w[1])))
    } else if u32_of(w[2]) is None {
        Some(TaskFault::Number(number_error(w[2])))
    } else {
        None
    }
}

/// The first fault among `n` street lines read from line `from` on; a missing line
/// is a fault too.
pub open spec fn streets_fault(ls: Seq<Seq<char>>, from: int, n: int) -> Option<TaskFault>
    decreases n,
{
    if n <= 0 {
        None
    } else if from < 0 || from >= ls.len() {
        Some(TaskFault::Malformed)
    } else {
        match street_fault(ls[from]) {
            Some(f) => Some(f),
            None => streets_fault(ls, from + 1, n - 1),
        }
    }
}

/// The first fault met reading the lines of a delivery task in order, if any.
pub open spec fn task_fault(ls: Seq<Seq<char>>) -> Option<TaskFault> {
    if ls.len() < 1 {
        Some(TaskFault::Malformed)
    } else if line_u32(ls[0]) is None {
        Some(TaskFault::Number(line_error(ls[0])))
    } else if ls.len() < 2 {
        Some(TaskFault::Malformed)
    } else if line_u32(ls[1]) is None {
        Some(TaskFault::Number(line_error(ls[1])))
    } else if ls.len() < 3 || !all_u32(words(ls[2])) || ls.len() < 4 {
        Some(TaskFault::Malformed)
    } else if line_u32(ls[3]) is None {
        Some(TaskFault::Number(line_error(ls[3])))
    } else if line_u32(ls[1]).unwrap() == u32::MAX {
        Some(TaskFault::Malformed)
    } else {
        let w = line_u32(ls[3]).unwrap() as int;
        if ls.len() < 5 + w || !(forall|k: int|
            0 <= k < w ==> factory_line_ok(#[trigger] ls[4 + k], line_u32(ls[1]).unwrap())) {
            Some(TaskFault::Malformed)
        } else if line_u32(ls[4 + w]) is None {
            Some(TaskFault::Number(line_error(ls[4 + w])))
        } else {
            streets_fault(ls, 5 + w, line_u32(ls[4 + w]).unwrap() as int)
        }
    }
}

/// The factories of a task, as (number, step), in input order.
pub open spec fn task_factories(ls: Seq<Seq<char>>) -> Seq<(u32, u32)> {
    Seq::new(
        line_u32(ls[3]).unwrap() as nat,
        |k: int| (val(words(ls[4 + k])[0]), val(words(ls[4 + k])[1])),
    )
}

/// The streets of a task, in input order.
pub open spec fn task_streets(ls: Seq<Seq<char>>) -> Seq<(LocationType, LocationType, u32)> {
    let w = line_u32(ls[3]).unwrap() as int;
    Seq::new(
        line_u32(ls[4 + w]).unwrap() as nat,
        |k: int|
            (
                location_of(words(ls[5 + w + k])[0]).unwrap(),
                location_of(words(ls[5 + w + k])[1]).unwrap(),
                val(words(ls[5 + w + k])[2]),
            ),
    )
}

/// The numbers of the factories of step `s`, in input order.
pub open spec fn step_members(fs: Seq<(u32, u32)>, s: int) -> Seq<u32>
    decreases fs.len(),
{
    if fs.len() == 0 {
        Seq::empty()
    } else {
        let r = step_members(fs.drop_last(), s);
        if fs.last().1 == s {
            r.push(fs.last().0)
        } else {
            r
        }
    }
}

/// The step of each factory number; a later line wins over an earlier one.
pub open spec fn factory_steps(fs: Seq<(u32, u32)>) -> Map<u32, u32>
    decreases fs.len(),
{
    if fs.len() == 0 {
        Map::empty()
    } else {
        factory_steps(fs.drop_last()).insert(fs.last().0, fs.last().1)
    }
}

fn location_in(w: &Vec<char>) -> (r: Option<LocationType>)
    ensures
        r == location_of(w@),
{
    if w.len() == 1 && w[0] == 'S' {
        assert(w@ =~= seq!['S']);
        return Some(LocationType::Start);
    }
    if w.len() == 1 && w[0] == 'T' {
        assert(w@ =~= seq!['T']);
        return Some(LocationType::Goal);
    }
    assert(w@ != seq!['S']) by {
        if w@ == seq!['S'] {
            assert(w@[0] == 'S');
        }
    }
    assert(w@ != seq!['T']) by {
        if w@ == seq!['T'] {
            assert(w@[0] == 'T');
        }
    }
    match parse_u32(w) {
        Some(n) => Some(LocationType::Num(n)),
        None => None,
    }
}

fn line_number(l: &Vec<char>) -> (r: Result<u32, NumberError>)
    ensures
        match r {
            Ok(v) => line_u32(l@) == Some(v),
            Err(k) => line_u32(l@) is None && k == line_error(l@),
        },
{
    let ws = split_words(l);
    if ws.len() == 0 {
        return Err(NumberError::Empty);
    }
    assert(char_rows(ws@)[0] == ws@[0]@);
    if ws.len() == 1 {
        if let Some(v) = parse_u32(&ws[0]) {
            return Ok(v);
        }
    }
    Err(why_not_u32(&ws[0]))
}

fn location_message(w: &Vec<char>) -> (m: String)
    ensures
        m@ == invalid_location_message(w@),
{
    let mut m = String::new();
    push_str(&mut m, "Invalid location: ");
    proof {
        reveal_strlit("Invalid location: ");
        assert(m@ =~= invalid_location_message(w@.take(0)));
    }
    let mut i: usize = 0;
    while i < w.len()
        invariant
            i <= w.len(),
            m@ == invalid_location_message(w@.take(i as int)),
        decreases w.len() - i,
    {
        push_char(&mut m, w[i]);
        i += 1;
        assert(m@ =~= invalid_location_message(w@.take(i as int)));
    }
    assert(w@.take(w.len() as int) =~= w@);
    m
}

fn all_words_u32(l: &Vec<char>) -> (r: Option<Vec<u32>>)
    ensures
        match r {
            Some(ns) => all_u32(words(l@)) && ns@ == words(l@).map_values(|w: Seq<char>| val(w)),
            None => !all_u32(words(l@)),
        },
{
    let ws = split_words(l);
    let ghost wv = char_rows(ws@);
    let mut ns: Vec<u32> = Vec::new();
    let mut i: usize = 0;
    while i < ws.len()
        invariant
            wv == char_rows(ws@),
            wv == words(l@),
            i <= ws.len(),
            forall|k: int| 0 <= k < i ==> #[trigger] u32_of(wv[k]) is Some,
            ns@ == wv.take(i as int).map_values(|w: Seq<char>| val(w)),
        decreases ws.len() - i,
    {
        assert(wv[i as int] == ws@[i as int]@);
        match parse_u32(&ws[i]) {
            Some(v) => {
                ns.push(v);
                assert(ns@ =~= wv.take(i + 1).map_values(|w: Seq<char>| val(w)));
            },
            None => {
                return None;
            },
        }
        i += 1;
    }
    assert(wv.take(ws.len() as int) =~= wv);
    Some(ns)
}

/// Reads a delivery task from the text of its file, line by line. The first fault
/// met (see `task_fault`) refuses the text; there is one exactly when the text is
/// not a well-formed task (see `task_text_ok`).
pub fn parse_task(text: &Vec<char>) -> (r: Result<ProblemData, TaskError>)
    ensures
        match r {
            Ok(d) => {
                let ls = lines(text@);
                &&& task_text_ok(ls)
                &&& task_fault(ls) is None
                &&& d.max_time == line_u32(ls[0]).unwrap()
                &&& d.count_steps == line_u32(ls[1]).unwrap()
                &&& d.factories@ == task_factories(ls)
                &&& groups_of(d) == Seq::new(
                    (d.count_steps + 1) as nat,
                    |s: int| step_members(task_factories(ls), s),
                )
                &&& d.streets@ == task_streets(ls)
                &&& d.factory_to_step@ == factory_steps(task_factories(ls))
            },
            Err(e) => !task_text_ok(lines(text@)) && task_fault(lines(text@)) == Some(e@),
        },
{
    broadcast use vstd::std_specs::hash::group_hash_axioms;
    let ls = split_lines(text);
    let ghost lv = char_rows(ls@);
    assert(lv == lines(text@));
    if ls.len() < 1 {
        return Err(TaskError::Malformed);
    }
    assert(lv[0] == ls@[0]@);
    let max_time = match line_number(&ls[0]) {
        Ok(v) => v,
        Err(k) => {
            return Err(TaskError::Number(k));
        },
    };
    if ls.len() < 2 {
        return Err(TaskError::Malformed);
    }
    assert(lv[1] == ls@[1]@);
    let count_steps = match line_number(&ls[1]) {
        Ok(v) => v,
        Err(k) => {
            return Err(TaskError::Number(k));
        },
    };
    if ls.len() < 3 {
        return Err(TaskError::Malformed);
    }
    assert(lv[2] == ls@[2]@);
    if all_words_u32(&ls[2]).is_none() || ls.len() < 4 {
        return Err(TaskError::Malformed);
    }
    assert(lv[3] == ls@[3]@);
    let total_w = match line_number(&ls[3]) {
        Ok(v) => v,
        Err(k) => {
            return Err(TaskError::Number(k));
        },
    };
    if count_steps == u32::MAX {
        return Err(TaskError::Malformed);
    }
    if ls.len() - 4 <= total_w as usize {
        return Err(TaskError::Malformed);
    }
    let ghost fs = task_factories(lv);
    let mut grouped: Vec<Vec<u32>> = Vec::new();
    let mut s: usize = 0;
    while s <= count_steps as usize
        invariant
            count_steps < u32::MAX,
            s <= count_steps + 1,
            grouped@.len() == s,
            forall|j: int| 0 <= j < s ==> (#[trigger] grouped@[j])@ == Seq::<u32>::empty(),
        decreases count_steps + 1 - s,
    {
        grouped.push(Vec::new());
        s += 1;
    }
    let mut factories: Vec<(u32, u32)> = Vec::new();
    let mut factory_to_step: std::collections::HashMap<u32, u32> = std::collections::HashMap::new();
    let mut k: usize = 0;
    assert(fs.take(0) =~= Seq::<(u32, u32)>::empty());
    while k < total_w as usize
        invariant
            lv == char_rows(ls@),
            lv == lines(text@),
            ls@.len() >= 5 + total_w,
            line_u32(lv[0]) is Some,
            line_u32(lv[1]) == Some(count_steps),
            count_steps < u32::MAX,
            all_u32(words(lv[2])),
            line_u32(lv[3]) == Some(total_w),
            fs == task_factories(lv),
            k <= total_w,
            grouped@.len() == count_steps + 1,
            forall|j: int| 0 <= j < k ==> factory_line_ok(#[trigger] lv[4 + j], count_steps),
            factories@ == fs.take(k as int),
            forall|j: int| 0 <= j <= count_steps ==> (#[trigger] grouped@[j])@ == step_members(fs.take(k as int), j),
            factory_to_step@ == factory_steps(fs.take(k as int)),
        decreases total_w - k,
    {
        assert(lv[4 + k] == ls@[4 + k]@);
        let ns = match all_words_u32(&ls[4 + k]) {
            Some(ns) => ns,
            None => {
                assert(!factory_line_ok(lv[4 + k], count_steps));
                return Err(TaskError::Malformed);
            },
        };
        if ns.len() < 2 || ns[1] > count_steps {
            assert(!factory_line_ok(lv[4 + k], count_steps));
            return Err(TaskError::Malformed);
        }
        let id = ns[0];
        let st = ns[1];
        assert(fs[k as int] == (id, st));
        proof {
            assert(fs.take(k + 1).drop_last() =~= fs.take(k as int));
            assert(fs.take(k + 1).last() == (id, st));
        }
        factories.push((id, st));
        factory_to_step.insert(id, st);
        let ghost before = grouped@;
        let mut g = grouped[st as usize].clone();
        g.push(id);
        grouped.set(st as usize, g);
        proof {
            assert(factories@ =~= fs.take(k + 1));
            assert forall|j: int| 0 <= j <= count_steps implies (#[trigger] grouped@[j])@ == step_members(fs.take(k + 1), j) by {
                if j != st {
                    assert(grouped@[j] == before[j]);
                }
            }
        }
        k += 1;
    }
    assert(fs.take(total_w as int) =~= fs);
    let sl = 4 + total_w as usize;
    assert(lv[sl as int] == ls@[sl as int]@);
    let count_streets = match line_number(&ls[sl]) {
        Ok(v) => v,
        Err(k) => {
            return Err(TaskError::Number(k));
        },
    };
    let ghost sts = task_streets(lv);
    let mut streets: Vec<(LocationType, LocationType, u32)> = Vec::new();
    let mut k: usize = 0;
    while k < count_streets as usize
        invariant
            lv == char_rows(ls@),
            lv == lines(text@),
            sl == 4 + total_w,
            ls@.len() >= 5 + total_w,
            line_u32(lv[0]) is Some,
            line_u32(lv[1]) == Some(count_steps),
            count_steps < u32::MAX,
            all_u32(words(lv[2])),
            line_u32(lv[3]) == Some(total_w),
            forall|j: int| 0 <= j < total_w ==> factory_line_ok(#[trigger] lv[4 + j], count_steps),
            line_u32(lv[sl as int]) == Some(count_streets),
            ls.len() >= sl + 1 + k,
            sts == task_streets(lv),
            k <= count_streets,
            forall|j: int| 0 <= j < k ==> street_line_ok(#[trigger] lv[5 + total_w + j]),
            streets@ == sts.take(k as int),
            streets_fault(lv, sl + 1, count_streets as int) == streets_fault(
                lv,
                sl + 1 + k,
                count_streets - k,
            ),
        decreases count_streets - k,
    {
        let li = sl + 1 + k;
        if li >= ls.len() {
            return Err(TaskError::Malformed);
        }
        assert(lv[li as int] == ls@[li as int]@);
        let ws = split_words(&ls[li]);
        let ghost wv = char_rows(ws@);
        if ws.len() < 3 {
            return Err(TaskError::Malformed);
        }
        assert(wv[0] == ws@[0]@ && wv[1] == ws@[1]@ && wv[2] == ws@[2]@);
        let a = match location_in(&ws[0]) {
            Some(a) => a,
            None => {
                return Err(TaskError::Location(location_message(&ws[0])));
            },
        };
        let b = match location_in(&ws[1]) {
            Some(b) => b,
            None => {
                return Err(TaskError::Location(location_message(&ws[1])));
            },
        };
        let w = match parse_u32(&ws[2]) {
            Some(w) => w,
            None => {
                return Err(TaskError::Number(why_not_u32(&ws[2])));
            },
        };
        streets.push((a, b, w));
        assert(streets@ =~= sts.take(k + 1));
        k += 1;
    }
    assert(sts.take(count_streets as int) =~= sts);
    let d = ProblemData { max_time, count_steps, factories, grouped_factories: grouped, streets, factory_to_step };
    assert(groups_of(d) =~= Seq::new((count_steps + 1) as nat, |s: int| step_members(fs, s)));
    Ok(d)
}

} // verus!
