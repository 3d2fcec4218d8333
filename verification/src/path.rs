//! Field paths for reaching into nested records.
//!
//! Syntax:
//!
//! | Path | Meaning |
//! | --- | --- |
//! | `role` | the top level member `role` |
//! | `meta.source` | a member of a nested object |
//! | `messages[0].content` | the first element of an array |
//! | `messages[].role` | every element of an array |
//! | `messages[-1]` | the last element of an array |
//! | `[0].id` | the file holds top level arrays |
//!
//! A path can select more than one value (`[]` fans out), so [`FieldPath::select`] returns a
//! list. Member names are taken literally: dots inside a key cannot be escaped.
use crate::json;
use crate::json::model;
use crate::json::model::Json;
use crate::json::Value;
use crate::table::Name;
use crate::text;
use crate::text::{chars_of, offset_of, parse_i64, push_decimal, substring};
use vstd::prelude::*;
use vstd::utf8::encode_utf8;

verus! {

/// One step of a [`FieldPath`].
#[derive(Debug, PartialEq, Eq)]
pub enum Segment {
    /// Object member lookup.
    Key(String),
    /// Array element by position; negative counts from the end.
    Index(i64),
    /// Every element of an array.
    Each,
}

/// One step of a path.
#[verifier::ext_equal]
pub enum Step {
    Key(Name),
    Index(int),
    Each,
}

impl View for Segment {
    type V = Step;

    open spec fn view(&self) -> Step {
        match *self {
            Segment::Key(name) => Step::Key(name@),
            Segment::Index(n) => Step::Index(n as int),
            Segment::Each => Step::Each,
        }
    }
}

impl Clone for Segment {
    fn clone(&self) -> (copy: Segment)
        ensures
            copy@ == self@,
    {
        match self {
            Segment::Key(name) => Segment::Key(name.clone()),
            Segment::Index(n) => Segment::Index(*n),
            Segment::Each => Segment::Each,
        }
    }
}

/// The steps that `segments` stand for.
pub open spec fn steps_of(segments: Seq<Segment>) -> Seq<Step> {
    Seq::new(segments.len(), |i: int| segments[i]@)
}

/// A compiled field path.
#[derive(Debug, PartialEq, Eq)]
pub struct FieldPath {
    source: String,
    segments: Vec<Segment>,
}

/// A path: its text and its steps.
#[verifier::ext_equal]
pub struct PathModel {
    pub source: Seq<char>,
    pub steps: Seq<Step>,
}

impl View for FieldPath {
    type V = PathModel;

    closed spec fn view(&self) -> PathModel {
        PathModel { source: self.source@, steps: steps_of(self.segments@) }
    }
}

impl Clone for FieldPath {
    fn clone(&self) -> (copy: FieldPath)
        ensures
            copy@ == self@,
    {
        let mut segments: Vec<Segment> = Vec::new();
        let mut i: usize = 0;
        while i < self.segments.len()
            invariant
                i <= self.segments@.len(),
                segments@.len() == i,
                forall|k: int| 0 <= k < i ==> (#[trigger] segments@[k])@ == self.segments@[k]@,
            decreases self.segments@.len() - i,
        {
            segments.push(self.segments[i].clone());
            i = i + 1;
        }
        assert(steps_of(segments@) =~= steps_of(self.segments@));
        FieldPath { source: self.source.clone(), segments }
    }
}

/// Why a path expression could not be compiled.
#[derive(Debug, Clone, PartialEq, Eq)]
pub enum PathError {
    /// The expression was empty.
    Empty,
    /// A `.` with nothing on one side, at the given offset.
    EmptySegment(usize),
    /// A `[` without a matching `]`, at the given offset.
    UnclosedBracket(usize),
    /// The text between brackets was not an integer.
    BadIndex(usize, String),
    /// A key started right after `]` without a `.` in between.
    MissingSeparator(usize),
}

/// What is wrong with a path expression, with the byte offset at which that shows.
#[verifier::ext_equal]
pub enum PathFault {
    Empty,
    EmptySegment(nat),
    UnclosedBracket(nat),
    BadIndex(nat, Seq<char>),
    MissingSeparator(nat),
}

impl View for PathError {
    type V = PathFault;

    open spec fn view(&self) -> PathFault {
        match *self {
            PathError::Empty => PathFault::Empty,
            PathError::EmptySegment(at) => PathFault::EmptySegment(at as nat),
            PathError::UnclosedBracket(at) => PathFault::UnclosedBracket(at as nat),
            PathError::BadIndex(at, inner) => PathFault::BadIndex(at as nat, inner@),
            PathError::MissingSeparator(at) => PathFault::MissingSeparator(at as nat),
        }
    }
}

/// The words for a [`PathFault`].
pub open spec fn fault_text(fault: PathFault) -> Seq<char> {
    match fault {
        PathFault::Empty => "empty field path"@,
        PathFault::EmptySegment(at) => "empty path segment at offset "@ + text::decimal(at),
        PathFault::UnclosedBracket(at) => "unclosed '[' at offset "@ + text::decimal(at),
        PathFault::BadIndex(at, inner) => "invalid array index '"@ + inner + "' at offset "@
            + text::decimal(at),
        PathFault::MissingSeparator(at) => "expected '.' before the key at offset "@
            + text::decimal(at),
    }
}

impl PathError {
    /// What is wrong, in words.
    pub fn to_string(&self) -> (words: String)
        ensures
            words@ == fault_text(self@),
    {
        let mut words: String = String::new();
        match self {
            PathError::Empty => {
                words.append("empty field path");
            },
            PathError::EmptySegment(at) => {
                words.append("empty path segment at offset ");
                push_decimal(&mut words, *at as u128);
            },
            PathError::UnclosedBracket(at) => {
                words.append("unclosed '[' at offset ");
                push_decimal(&mut words, *at as u128);
            },
            PathError::BadIndex(at, inner) => {
                words.append("invalid array index '");
                words.append(inner.as_str());
                words.append("' at offset ");
                push_decimal(&mut words, *at as u128);
            },
            PathError::MissingSeparator(at) => {
                words.append("expected '.' before the key at offset ");
                push_decimal(&mut words, *at as u128);
            },
        }
        assert(words@ =~= fault_text(self@));
        words
    }
}

// ---------------------------------------------------------------------------------------------
// Compiling
// ---------------------------------------------------------------------------------------------

/// The first position from `p` on that holds a closing bracket, or the end.
pub open spec fn bracket_end(s: Seq<char>, p: int) -> int
    decreases s.len() - p,
{
    if 0 <= p < s.len() && s[p] != ']' {
        bracket_end(s, p + 1)
    } else {
        p
    }
}

/// The first position from `p` on that holds a dot or an opening bracket, or the end.
pub open spec fn key_end(s: Seq<char>, p: int) -> int
    decreases s.len() - p,
{
    if 0 <= p < s.len() && s[p] != '.' && s[p] != '[' {
        key_end(s, p + 1)
    } else {
        p
    }
}

/// The step that the text between brackets denotes.
pub open spec fn bracket_step(inner: Seq<char>) -> Option<Step> {
    if inner.len() == 0 {
        Some(Step::Each)
    } else {
        match text::signed_value(inner) {
            Some(n) => if i64::MIN <= n <= i64::MAX {
                Some(Step::Index(n))
            } else {
                None
            },
            None => None,
        }
    }
}

/// `rest` with one more step in front.
pub open spec fn preceded(step: Step, rest: Result<Seq<Step>, PathFault>) -> Result<
    Seq<Step>,
    PathFault,
> {
    match rest {
        Ok(steps) => Ok(seq![step] + steps),
        Err(fault) => Err(fault),
    }
}

/// The steps of `s` from position `p` on. `expect_key` says that a step has to follow: at the
/// start, and behind a dot.
pub open spec fn compile_from(s: Seq<char>, p: int, expect_key: bool) -> Result<
    Seq<Step>,
    PathFault,
>
    decreases s.len() - p,
{
    if p < 0 || p >= s.len() {
        if expect_key {
            Err(PathFault::EmptySegment(encode_utf8(s).len()))
        } else {
            Ok(Seq::empty())
        }
    } else if s[p] == '[' {
        let close = bracket_end(s, p);
        if close >= s.len() {
            Err(PathFault::UnclosedBracket(text::byte_offset(s, p)))
        } else {
            match bracket_step(s.subrange(p + 1, close)) {
                None => Err(
                    PathFault::BadIndex(text::byte_offset(s, p + 1), s.subrange(p + 1, close)),
                ),
                Some(step) => {
                    proof {
                        lemma_bracket_end(s, p);
                    }
                    preceded(step, compile_from(s, close + 1, false))
                },
            }
        }
    } else if s[p] == '.' {
        if expect_key {
            Err(PathFault::EmptySegment(text::byte_offset(s, p)))
        } else {
            compile_from(s, p + 1, true)
        }
    } else if !expect_key {
        Err(PathFault::MissingSeparator(text::byte_offset(s, p)))
    } else {
        proof {
            lemma_key_end(s, p);
        }
        let end = key_end(s, p);
        preceded(Step::Key(s.subrange(p, end)), compile_from(s, end, false))
    }
}

/// The steps of the path expression `s`.
pub open spec fn compile(s: Seq<char>) -> Result<Seq<Step>, PathFault> {
    if s.len() == 0 {
        Err(PathFault::Empty)
    } else {
        compile_from(s, 0, true)
    }
}

pub proof fn lemma_bracket_end(s: Seq<char>, p: int)
    requires
        0 <= p < s.len(),
    ensures
        p <= bracket_end(s, p) <= s.len(),
        s[p] != ']' ==> p < bracket_end(s, p),
        bracket_end(s, p) < s.len() ==> s[bracket_end(s, p)] == ']',
    decreases s.len() - p,
{
    reveal_with_fuel(bracket_end, 2);
    if s[p] != ']' && p + 1 < s.len() {
        lemma_bracket_end(s, p + 1);
    }
}

pub proof fn lemma_key_end(s: Seq<char>, p: int)
    requires
        0 <= p < s.len(),
        s[p] != '.' && s[p] != '[',
    ensures
        p < key_end(s, p) <= s.len(),
    decreases s.len() - p,
{
    reveal_with_fuel(key_end, 2);
    if p + 1 < s.len() && s[p + 1] != '.' && s[p + 1] != '[' {
        lemma_key_end(s, p + 1);
    }
}

fn find_bracket_end(s: &Vec<char>, p: usize) -> (end: usize)
    requires
        p < s@.len(),
    ensures
        end == bracket_end(s@, p as int),
        p <= end <= s@.len(),
        end < s@.len() ==> s@[end as int] == ']',
{
    let mut i: usize = p;
    while i < s.len() && s[i] != ']'
        invariant
            p <= i <= s@.len(),
            bracket_end(s@, p as int) == bracket_end(s@, i as int),
        decreases s@.len() - i,
    {
        i = i + 1;
    }
    i
}

fn find_key_end(s: &Vec<char>, p: usize) -> (end: usize)
    requires
        p < s@.len(),
    ensures
        end == key_end(s@, p as int),
        p <= end <= s@.len(),
{
    let mut i: usize = p;
    while i < s.len() && s[i] != '.' && s[i] != '['
        invariant
            p <= i <= s@.len(),
            key_end(s@, p as int) == key_end(s@, i as int),
        decreases s@.len() - i,
    {
        i = i + 1;
    }
    i
}

/// The segment that `s[from..to]`, the text between brackets, denotes.
fn bracket_segment(s: &Vec<char>, from: usize, to: usize) -> (segment: Option<Segment>)
    requires
        from <= to <= s@.len(),
    ensures
        segment matches Some(g) ==> bracket_step(s@.subrange(from as int, to as int)) == Some(g@),
        segment is None ==> bracket_step(s@.subrange(from as int, to as int)) is None,
{
    if from == to {
        return Some(Segment::Each);
    }
    let mut inner: Vec<char> = Vec::new();
    let mut i: usize = from;
    while i < to
        invariant
            from <= i <= to <= s@.len(),
            inner@ == s@.subrange(from as int, i as int),
        decreases to - i,
    {
        inner.push(s[i]);
        i = i + 1;
        assert(s@.subrange(from as int, i as int) =~= s@.subrange(from as int, i - 1).push(
            s@[i - 1],
        ));
    }
    match parse_i64(&inner) {
        Some(n) => Some(Segment::Index(n)),
        None => None,
    }
}

/// Whether `here` is what is left of `whole` once the steps `done` were read.
spec fn goes_on(
    whole: Result<Seq<Step>, PathFault>,
    done: Seq<Step>,
    here: Result<Seq<Step>, PathFault>,
) -> bool {
    match here {
        Ok(rest) => whole == Ok::<Seq<Step>, PathFault>(done + rest),
        Err(fault) => whole == Err::<Seq<Step>, PathFault>(fault),
    }
}

proof fn lemma_goes_on(
    whole: Result<Seq<Step>, PathFault>,
    done: Seq<Step>,
    step: Step,
    here: Result<Seq<Step>, PathFault>,
)
    requires
        goes_on(whole, done, preceded(step, here)),
    ensures
        goes_on(whole, done.push(step), here),
{
    match here {
        Ok(rest) => {
            assert(done + (seq![step] + rest) =~= done.push(step) + rest);
        },
        Err(_) => {},
    }
}

impl FieldPath {
    /// Compiles a path expression.
    pub fn parse(source: &str) -> (r: Result<FieldPath, PathError>)
        ensures
            r matches Ok(path) ==> compile(source@) == Ok::<Seq<Step>, PathFault>(path@.steps)
                && path@.source == source@,
            r matches Err(e) ==> compile(source@) == Err::<Seq<Step>, PathFault>(e@),
    {
        let bytes: &[u8] = source.as_bytes();
        let length: usize = bytes.len();
        let chars: Vec<char> = chars_of(source);
        if chars.len() == 0 {
            return Err(PathError::Empty);
        }
        let mut segments: Vec<Segment> = Vec::new();
        let mut i: usize = 0;
        let mut expect_key: bool = true;
        let ghost whole = compile_from(chars@, 0, true);
        proof {
            assert(steps_of(segments@) =~= Seq::<Step>::empty());
            match whole {
                Ok(rest) => {
                    assert(Seq::<Step>::empty() + rest =~= rest);
                },
                Err(_) => {},
            }
        }
        while i < chars.len()
            invariant
                i <= chars@.len(),
                chars@ == source@,
                chars@.len() > 0,
                length == encode_utf8(source@).len(),
                whole == compile(source@),
                goes_on(whole, steps_of(segments@), compile_from(chars@, i as int, expect_key)),
            decreases chars@.len() - i,
        {
            let c: char = chars[i];
            let ghost done = steps_of(segments@);
            if c == '[' {
                proof {
                    lemma_bracket_end(chars@, i as int);
                }
                let close: usize = find_bracket_end(&chars, i);
                if close >= chars.len() {
                    return Err(PathError::UnclosedBracket(offset_of(&chars, i)));
                }
                match bracket_segment(&chars, i + 1, close) {
                    None => {
                        return Err(
                            PathError::BadIndex(
                                offset_of(&chars, i + 1),
                                substring(&chars, i + 1, close),
                            ),
                        );
                    },
                    Some(segment) => {
                        proof {
                            lemma_goes_on(
                                whole,
                                done,
                                segment@,
                                compile_from(chars@, close + 1, false),
                            );
                            assert(steps_of(segments@.push(segment)) =~= done.push(segment@));
                        }
                        segments.push(segment);
                    },
                }
                i = close + 1;
                expect_key = false;
            } else if c == '.' {
                if expect_key {
                    return Err(PathError::EmptySegment(offset_of(&chars, i)));
                }
                i = i + 1;
                expect_key = true;
            } else {
                if !expect_key {
                    return Err(PathError::MissingSeparator(offset_of(&chars, i)));
                }
                proof {
                    lemma_key_end(chars@, i as int);
                }
                let end: usize = find_key_end(&chars, i);
                let segment = Segment::Key(substring(&chars, i, end));
                proof {
                    lemma_goes_on(whole, done, segment@, compile_from(chars@, end as int, false));
                    assert(steps_of(segments@.push(segment)) =~= done.push(segment@));
                }
                segments.push(segment);
                i = end;
                expect_key = false;
            }
        }
        if expect_key {
            return Err(PathError::EmptySegment(length));
        }
        assert(steps_of(segments@) + Seq::<Step>::empty() =~= steps_of(segments@));
        Ok(FieldPath { source: source.to_owned(), segments })
    }

    /// The path text that was compiled.
    pub fn source(&self) -> (text: &str)
        ensures
            text@ == self@.source,
    {
        self.source.as_str()
    }

    /// The path text that was compiled.
    pub fn to_string(&self) -> (text: String)
        ensures
            text@ == self@.source,
    {
        self.source.clone()
    }

    /// The compiled steps.
    pub fn segments(&self) -> (segments: &[Segment])
        ensures
            steps_of(segments@) == self@.steps,
    {
        self.segments.as_slice()
    }

    /// Collects every value the path selects inside `root`.
    ///
    /// An empty result means the path does not exist in this record, which the callers report
    /// as "missing" rather than as an error.
    pub fn select<'v>(&self, root: &'v Value) -> (found: Vec<&'v Value>)
        ensures
            found_model(found@) == select(self@.steps, root@),
    {
        let mut current: Vec<&'v Value> = Vec::new();
        current.push(root);
        let ghost steps = self@.steps;
        assert(found_model(current@) =~= select(steps.take(0), root@));
        let mut k: usize = 0;
        while k < self.segments.len()
            invariant
                k <= self.segments@.len(),
                steps == steps_of(self.segments@),
                found_model(current@) == select(steps.take(k as int), root@),
            decreases self.segments@.len() - k,
        {
            let mut next: Vec<&'v Value> = Vec::new();
            let segment: &Segment = &self.segments[k];
            let ghost now = found_model(current@);
            let mut i: usize = 0;
            assert(found_model(next@) =~= step_all(now.take(0), segment@));
            while i < current.len()
                invariant
                    i <= current@.len(),
                    now == found_model(current@),
                    found_model(next@) == step_all(now.take(i as int), segment@),
                decreases current@.len() - i,
            {
                assert(now.take(i + 1).drop_last() =~= now.take(i as int));
                push_step(&mut next, current[i], segment);
                i = i + 1;
            }
            proof {
                assert(now.take(i as int) =~= now);
                assert(steps.take(k + 1).drop_last() =~= steps.take(k as int));
            }
            current = next;
            k = k + 1;
        }
        assert(steps.take(k as int) =~= steps);
        current
    }
}

// ---------------------------------------------------------------------------------------------
// Selecting
// ---------------------------------------------------------------------------------------------

/// The values that a vector of references refers to.
pub open spec fn found_model(found: Seq<&Value>) -> Seq<Json> {
    Seq::new(found.len(), |i: int| found[i]@)
}

/// The item that `n` counts off in an array of `len` items: from the start, or, where `n` is
/// negative, from the end.
pub open spec fn resolved(n: int, len: nat) -> int {
    if n < 0 {
        len + n
    } else {
        n
    }
}

/// The values that one step selects inside `v`.
pub open spec fn step_into(v: Json, step: Step) -> Seq<Json> {
    match step {
        Step::Key(name) => match model::get(v, name) {
            Some(found) => seq![found],
            None => Seq::empty(),
        },
        Step::Index(n) => match v {
            Json::Array(items) => if 0 <= resolved(n, items.len()) < items.len() {
                seq![items[resolved(n, items.len())]]
            } else {
                Seq::empty()
            },
            _ => Seq::empty(),
        },
        Step::Each => match v {
            Json::Array(items) => items,
            _ => Seq::empty(),
        },
    }
}

/// The values that one step selects inside each of `values`, in order.
pub open spec fn step_all(values: Seq<Json>, step: Step) -> Seq<Json>
    decreases values.len(),
{
    if values.len() == 0 {
        Seq::empty()
    } else {
        step_all(values.drop_last(), step) + step_into(values.last(), step)
    }
}

/// The values that `steps`, taken one after the other, select inside `root`.
pub open spec fn select(steps: Seq<Step>, root: Json) -> Seq<Json>
    decreases steps.len(),
{
    if steps.len() == 0 {
        seq![root]
    } else {
        step_all(select(steps.drop_last(), root), steps.last())
    }
}

/// Appends what one step selects inside `value`.
fn push_step<'v>(next: &mut Vec<&'v Value>, value: &'v Value, segment: &Segment)
    ensures
        found_model(final(next)@) == found_model(old(next)@) + step_into(value@, segment@),
{
    let ghost before = found_model(next@);
    match segment {
        Segment::Key(name) => {
            if let Some(found) = value.get(name.as_str()) {
                next.push(found);
            }
        },
        Segment::Index(index) => {
            if let Some(items) = value.as_array() {
                proof {
                    json::lemma_items_model(items@);
                }
                let at: i128 = if *index < 0 {
                    items.len() as i128 + *index as i128
                } else {
                    *index as i128
                };
                if at >= 0 && at < items.len() as i128 {
                    next.push(&items[at as usize]);
                }
            }
        },
        Segment::Each => {
            if let Some(items) = value.as_array() {
                let ghost all = json::items_model(items@);
                proof {
                    json::lemma_items_model(items@);
                }
                let mut i: usize = 0;
                while i < items.len()
                    invariant
                        i <= items@.len(),
                        all == json::items_model(items@),
                        all.len() == items@.len(),
                        found_model(next@) == before + all.take(i as int),
                    decreases items@.len() - i,
                {
                    let ghost held = found_model(next@);
                    proof {
                        json::lemma_items_model(items@);
                    }
                    next.push(&items[i]);
                    i = i + 1;
                    proof {
                        assert(found_model(next@) =~= held.push(all[i - 1]));
                        assert(all.take(i as int) =~= all.take(i - 1).push(all[i - 1]));
                        assert(found_model(next@) =~= before + all.take(i as int));
                    }
                }
                assert(all.take(i as int) =~= all);
            }
        },
    }
    assert(found_model(next@) =~= before + step_into(value@, segment@));
}

// ---------------------------------------------------------------------------------------------
// Laws
// ---------------------------------------------------------------------------------------------

/// Whether a path can name `name`: it is not empty and holds neither a dot nor an opening
/// bracket.
pub open spec fn is_plain(name: Name) -> bool {
    name.len() > 0 && forall|i: int|
        0 <= i < name.len() ==> (#[trigger] name[i]) != '.' && name[i] != '['
}

/// Whether a path can express `step`.
pub open spec fn is_expressible(step: Step) -> bool {
    match step {
        Step::Key(name) => is_plain(name),
        Step::Index(n) => i64::MIN <= n <= i64::MAX,
        Step::Each => true,
    }
}

/// The decimal numeral of an integer, with a sign where it is negative.
pub open spec fn integer_text(n: int) -> Seq<char> {
    if n < 0 {
        seq!['-'] + text::decimal((-n) as nat)
    } else {
        text::decimal(n as nat)
    }
}

/// How `step` is written; `first` says that nothing stands before it.
pub open spec fn step_text(step: Step, first: bool) -> Seq<char> {
    match step {
        Step::Key(name) => if first {
            name
        } else {
            seq!['.'] + name
        },
        Step::Index(n) => seq!['['] + integer_text(n) + seq![']'],
        Step::Each => seq!['[', ']'],
    }
}

/// How `steps` are written one behind the other; `first` says that nothing stands before them.
pub open spec fn steps_text(steps: Seq<Step>, first: bool) -> Seq<char>
    decreases steps.len(),
{
    if steps.len() == 0 {
        Seq::empty()
    } else {
        step_text(steps[0], first) + steps_text(steps.drop_first(), false)
    }
}

proof fn lemma_integer_text(n: int)
    ensures
        text::signed_value(integer_text(n)) == Some(n),
        integer_text(n).len() > 0,
        forall|i: int| 0 <= i < integer_text(n).len() ==> (#[trigger] integer_text(n)[i]) != ']',
{
    let size = if n < 0 {
        (-n) as nat
    } else {
        n as nat
    };
    text::lemma_decimal(size);
    text::lemma_decimal_value(size);
    if n < 0 {
        assert(integer_text(n).drop_first() =~= text::decimal(size));
    }
}

proof fn lemma_find_bracket(s: Seq<char>, p: int, end: int)
    requires
        0 <= p <= end < s.len(),
        forall|i: int| p <= i < end ==> (#[trigger] s[i]) != ']',
        s[end] == ']',
    ensures
        bracket_end(s, p) == end,
    decreases end - p,
{
    if p < end {
        lemma_find_bracket(s, p + 1, end);
    }
}

proof fn lemma_find_key_end(s: Seq<char>, p: int, end: int)
    requires
        0 <= p <= end <= s.len(),
        forall|i: int| p <= i < end ==> (#[trigger] s[i]) != '.' && s[i] != '[',
        end < s.len() ==> s[end] == '.' || s[end] == '[',
    ensures
        key_end(s, p) == end,
    decreases end - p,
{
    if p < end {
        lemma_find_key_end(s, p + 1, end);
    }
}

/// A key that reaches up to a dot, an opening bracket or the end is read as one step.
proof fn lemma_key_read(s: Seq<char>, from: int, end: int)
    requires
        0 <= from < end <= s.len(),
        is_plain(s.subrange(from, end)),
        end < s.len() ==> s[end] == '.' || s[end] == '[',
    ensures
        compile_from(s, from, true) == preceded(
            Step::Key(s.subrange(from, end)),
            compile_from(s, end, false),
        ),
{
    let name = s.subrange(from, end);
    assert forall|i: int| from <= i < end implies (#[trigger] s[i]) != '.' && s[i] != '[' by {
        assert(s[i] == name[i - from]);
    }
    lemma_find_key_end(s, from, end);
}

/// A pair of brackets is read as one step.
proof fn lemma_bracket_read(s: Seq<char>, p: int, end: int, step: Step, expect_key: bool)
    requires
        0 <= p,
        p + 1 < end <= s.len(),
        s[p] == '[',
        s[end - 1] == ']',
        forall|i: int| p < i < end - 1 ==> (#[trigger] s[i]) != ']',
        bracket_step(s.subrange(p + 1, end - 1)) == Some(step),
    ensures
        compile_from(s, p, expect_key) == preceded(step, compile_from(s, end, false)),
{
    lemma_find_bracket(s, p, end - 1);
}

/// Behind the text `before`, a step is read from its text.
proof fn lemma_step_read(before: Seq<char>, step: Step, tail: Seq<char>, first: bool)
    requires
        is_expressible(step),
        tail.len() > 0 ==> tail[0] == '.' || tail[0] == '[',
    ensures
        ({
            let s = before + step_text(step, first) + tail;
            let end = before.len() + step_text(step, first).len();
            compile_from(s, before.len() as int, first) == preceded(
                step,
                compile_from(s, end as int, false),
            )
        }),
{
    let head = step_text(step, first);
    let s = before + head + tail;
    let p = before.len() as int;
    let end = p + head.len();
    assert(end < s.len() ==> s[end] == tail[0]);
    match step {
        Step::Key(name) => {
            if first {
                assert(s.subrange(p, end) =~= name);
                lemma_key_read(s, p, end);
            } else {
                assert(s[p] == '.');
                assert(s.subrange(p + 1, end) =~= name);
                lemma_key_read(s, p + 1, end);
            }
        },
        Step::Index(n) => {
            lemma_integer_text(n);
            assert(s.subrange(p + 1, end - 1) =~= integer_text(n));
            assert forall|i: int| p < i < end - 1 implies (#[trigger] s[i]) != ']' by {
                assert(s[i] == integer_text(n)[i - p - 1]);
            }
            lemma_bracket_read(s, p, end, step, first);
        },
        Step::Each => {
            assert(s.subrange(p + 1, end - 1) =~= Seq::<char>::empty());
            lemma_bracket_read(s, p, end, step, first);
        },
    }
}

/// Behind the text `before`, the text of `steps` reads as `steps`.
proof fn lemma_steps_read(before: Seq<char>, steps: Seq<Step>, first: bool)
    requires
        forall|i: int| 0 <= i < steps.len() ==> is_expressible(#[trigger] steps[i]),
        first ==> steps.len() > 0,
    ensures
        compile_from(before + steps_text(steps, first), before.len() as int, first) == Ok::<
            Seq<Step>,
            PathFault,
        >(steps),
    decreases steps.len(),
{
    if steps.len() == 0 {
        assert(steps =~= Seq::empty());
    } else {
        let head = step_text(steps[0], first);
        let rest = steps.drop_first();
        let tail = steps_text(rest, false);
        assert(is_expressible(steps[0]));
        assert forall|i: int| 0 <= i < rest.len() implies is_expressible(#[trigger] rest[i]) by {
            assert(is_expressible(steps[i + 1]));
        }
        lemma_steps_read(before + head, rest, false);
        lemma_tail_starts(rest);
        lemma_step_read(before, steps[0], tail, first);
        assert(before + steps_text(steps, first) =~= before + head + tail);
        assert(seq![steps[0]] + rest =~= steps);
    }
}

/// What follows a step starts with a dot or an opening bracket.
proof fn lemma_tail_starts(steps: Seq<Step>)
    requires
        forall|i: int| 0 <= i < steps.len() ==> is_expressible(#[trigger] steps[i]),
    ensures
        ({
            let tail = steps_text(steps, false);
            tail.len() > 0 ==> tail[0] == '.' || tail[0] == '['
        }),
{
    if steps.len() > 0 {
        assert(step_text(steps[0], false).len() > 0);
        assert(steps_text(steps, false)[0] == step_text(steps[0], false)[0]);
    }
}

/// Every list of steps that a path can express is what its own text compiles to: keys are
/// taken literally and joined by dots, `[n]` is a position and `[]` is every element.
pub proof fn law_written_path_compiles_back(steps: Seq<Step>)
    requires
        steps.len() > 0,
        forall|i: int| 0 <= i < steps.len() ==> is_expressible(#[trigger] steps[i]),
    ensures
        compile(steps_text(steps, true)) == Ok::<Seq<Step>, PathFault>(steps),
{
    lemma_steps_read(Seq::empty(), steps, true);
    assert(Seq::<char>::empty() + steps_text(steps, true) =~= steps_text(steps, true));
    assert(is_expressible(steps[0]));
    assert(step_text(steps[0], true).len() > 0);
}

proof fn lemma_compiled_steps(s: Seq<char>, p: int, expect_key: bool)
    requires
        0 <= p <= s.len(),
    ensures
        compile_from(s, p, expect_key) matches Ok(steps) ==> (forall|i: int|
            0 <= i < steps.len() ==> is_expressible(#[trigger] steps[i])) && (p < s.len()
            ==> steps.len() > 0),
    decreases s.len() - p,
{
    if p < s.len() {
        if s[p] == '[' {
            lemma_bracket_end(s, p);
            if bracket_end(s, p) < s.len() {
                lemma_compiled_steps(s, bracket_end(s, p) + 1, false);
            }
        } else if s[p] == '.' {
            lemma_compiled_steps(s, p + 1, true);
            if p + 1 == s.len() && !expect_key {
                assert(compile_from(s, p + 1, true) is Err);
            }
        } else if expect_key {
            lemma_key_end(s, p);
            lemma_compiled_steps(s, key_end(s, p), false);
            let name = s.subrange(p, key_end(s, p));
            assert forall|i: int| 0 <= i < name.len() implies (#[trigger] name[i]) != '.'
                && name[i] != '[' by {
                lemma_before_key_end(s, p, p + i);
            }
        }
    }
}

proof fn lemma_before_key_end(s: Seq<char>, p: int, i: int)
    requires
        0 <= p <= i < key_end(s, p),
        key_end(s, p) <= s.len(),
    ensures
        s[i] != '.' && s[i] != '[',
    decreases i - p,
{
    if p < i {
        lemma_before_key_end(s, p + 1, i);
    }
}

/// A path that compiles has at least one step, and none of its keys is empty or holds a dot or
/// an opening bracket.
pub proof fn law_compiled_steps_are_expressible(s: Seq<char>)
    ensures
        compile(s) matches Ok(steps) ==> steps.len() > 0 && forall|i: int|
            0 <= i < steps.len() ==> is_expressible(#[trigger] steps[i]),
{
    lemma_compiled_steps(s, 0, true);
}

/// Steps taken one list after the other select what the joined list selects: a path reaches
/// into whatever the path before it reached.
pub proof fn law_paths_compose(first: Seq<Step>, second: Seq<Step>, root: Json)
    ensures
        select(first + second, root) == select_all(second, select(first, root)),
    decreases second.len(),
{
    if second.len() == 0 {
        assert(first + second =~= first);
    } else {
        law_paths_compose(first, second.drop_last(), root);
        assert((first + second).drop_last() =~= first + second.drop_last());
    }
}

/// The values that `steps` select inside `values`.
pub open spec fn select_all(steps: Seq<Step>, values: Seq<Json>) -> Seq<Json>
    decreases steps.len(),
{
    if steps.len() == 0 {
        values
    } else {
        step_all(select_all(steps.drop_last(), values), steps.last())
    }
}

/// A step that selects nothing is the end: no step behind it selects anything.
pub proof fn law_nothing_comes_of_nothing(first: Seq<Step>, second: Seq<Step>, root: Json)
    requires
        select(first, root).len() == 0,
    ensures
        select(first + second, root).len() == 0,
    decreases second.len(),
{
    if second.len() == 0 {
        assert(first + second =~= first);
    } else {
        law_nothing_comes_of_nothing(first, second.drop_last(), root);
        assert((first + second).drop_last() =~= first + second.drop_last());
    }
}

proof fn lemma_items_nodes_concat(a: Seq<Json>, b: Seq<Json>)
    ensures
        model::items_nodes(a + b) == model::items_nodes(a) + model::items_nodes(b),
    decreases a.len(),
{
    if a.len() == 0 {
        assert(a + b =~= b);
    } else {
        lemma_items_nodes_concat(a.drop_first(), b);
        assert((a + b).drop_first() =~= a.drop_first() + b);
    }
}

proof fn lemma_item_nodes(items: Seq<Json>, i: int)
    requires
        0 <= i < items.len(),
    ensures
        model::nodes(items[i]) <= model::items_nodes(items),
    decreases i,
{
    if i > 0 {
        lemma_item_nodes(items.drop_first(), i - 1);
        assert(items.drop_first()[i - 1] == items[i]);
    }
}

proof fn lemma_member_nodes(members: Seq<(Name, Json)>, name: Name)
    ensures
        model::member(members, name) matches Some(v) ==> model::nodes(v) <= model::members_nodes(
            members,
        ),
    decreases members.len(),
{
    if members.len() > 0 {
        lemma_member_nodes(members.drop_first(), name);
    }
}

proof fn lemma_one_nodes(v: Json)
    ensures
        model::items_nodes(seq![v]) == model::nodes(v),
{
    reveal_with_fuel(model::items_nodes, 2);
    assert(seq![v].drop_first() =~= Seq::<Json>::empty());
}

proof fn lemma_step_into_nodes(v: Json, step: Step)
    ensures
        model::items_nodes(step_into(v, step)) <= model::nodes(v),
{
    assert(model::items_nodes(Seq::<Json>::empty()) == 0);
    match step {
        Step::Key(name) => {
            if let Json::Object(members) = v {
                lemma_member_nodes(members, name);
                if let Some(found) = model::member(members, name) {
                    lemma_one_nodes(found);
                }
            }
        },
        Step::Index(n) => {
            if let Json::Array(items) = v {
                if 0 <= resolved(n, items.len()) < items.len() {
                    lemma_item_nodes(items, resolved(n, items.len()));
                    lemma_one_nodes(items[resolved(n, items.len())]);
                }
            }
        },
        Step::Each => {},
    }
}

proof fn lemma_step_all_nodes(values: Seq<Json>, step: Step)
    ensures
        model::items_nodes(step_all(values, step)) <= model::items_nodes(values),
    decreases values.len(),
{
    if values.len() > 0 {
        lemma_step_all_nodes(values.drop_last(), step);
        lemma_step_into_nodes(values.last(), step);
        lemma_items_nodes_concat(
            step_all(values.drop_last(), step),
            step_into(values.last(), step),
        );
        lemma_items_nodes_concat(values.drop_last(), seq![values.last()]);
        lemma_one_nodes(values.last());
        assert(values.drop_last() + seq![values.last()] =~= values);
    }
}

proof fn lemma_count_is_within_nodes(items: Seq<Json>)
    ensures
        items.len() <= model::items_nodes(items),
    decreases items.len(),
{
    if items.len() > 0 {
        lemma_count_is_within_nodes(items.drop_first());
        reveal_with_fuel(model::nodes, 2);
        assert(model::nodes(items[0]) >= 1);
    }
}

/// A path selects disjoint parts of a record: together they hold no more values than the
/// record does, and so there are no more of them than the record holds values.
pub proof fn law_selection_fits_in_the_record(steps: Seq<Step>, root: Json)
    ensures
        model::items_nodes(select(steps, root)) <= model::nodes(root),
        select(steps, root).len() <= model::nodes(root),
    decreases steps.len(),
{
    if steps.len() == 0 {
        lemma_one_nodes(root);
    } else {
        law_selection_fits_in_the_record(steps.drop_last(), root);
        lemma_step_all_nodes(select(steps.drop_last(), root), steps.last());
    }
    lemma_count_is_within_nodes(select(steps, root));
}

proof fn lemma_step_all_concat(a: Seq<Json>, b: Seq<Json>, step: Step)
    ensures
        step_all(a + b, step) == step_all(a, step) + step_all(b, step),
    decreases b.len(),
{
    if b.len() == 0 {
        assert(a + b =~= a);
        assert(step_all(a, step) + step_all(b, step) =~= step_all(a, step));
    } else {
        lemma_step_all_concat(a, b.drop_last(), step);
        assert((a + b).drop_last() =~= a + b.drop_last());
        assert(step_all(a + b, step) =~= step_all(a, step) + step_all(b, step));
    }
}

/// What steps select in two lists put together is what they select in both.
pub proof fn lemma_select_concat(steps: Seq<Step>, a: Seq<Json>, b: Seq<Json>)
    ensures
        select_all(steps, a + b) == select_all(steps, a) + select_all(steps, b),
    decreases steps.len(),
{
    if steps.len() > 0 {
        let init = steps.drop_last();
        lemma_select_concat(init, a, b);
        lemma_step_all_concat(
            select_all(init, a),
            select_all(init, b),
            steps.last(),
        );
    }
}

/// What steps select in a list of one value is what they select in the value.
pub proof fn lemma_select_one(steps: Seq<Step>, v: Json)
    ensures
        select_all(steps, seq![v]) == select(steps, v),
    decreases steps.len(),
{
    if steps.len() > 0 {
        lemma_select_one(steps.drop_last(), v);
    }
}

/// Steps select nothing in nothing.
pub proof fn lemma_select_none(steps: Seq<Step>)
    ensures
        select_all(steps, Seq::<Json>::empty()) == Seq::<Json>::empty(),
    decreases steps.len(),
{
    if steps.len() > 0 {
        lemma_select_none(steps.drop_last());
    }
}

// ---------------------------------------------------------------------------------------------
// What each step reaches
// ---------------------------------------------------------------------------------------------

proof fn lemma_one_step(step: Step, v: Json)
    ensures
        select(seq![step], v) == step_into(v, step),
{
    reveal_with_fuel(select, 2);
    reveal_with_fuel(step_all, 2);
    assert(seq![step].drop_last() =~= Seq::empty());
    assert(seq![v].drop_last() =~= Seq::<Json>::empty());
    assert(select(seq![step], v) =~= step_into(v, step));
}

/// In an array the position `k` selects the item at that position, and `-k` the one that is `k`
/// from the end, which is the item at position `len - k`. Positions beyond either end select
/// nothing, and nothing has a position but in an array.
pub proof fn law_positions_count_from_either_end(items: Seq<Json>, k: int, v: Json)
    requires
        k >= 0,
    ensures
        k < items.len() ==> select(seq![Step::Index(k)], Json::Array(items)) == seq![items[k]],
        1 <= k <= items.len() ==> select(seq![Step::Index(-k)], Json::Array(items))
            == seq![items[items.len() - k]],
        1 <= k <= items.len() ==> select(seq![Step::Index(-k)], Json::Array(items)) == select(
            seq![Step::Index(items.len() - k)],
            Json::Array(items),
        ),
        k >= items.len() ==> select(seq![Step::Index(k)], Json::Array(items)).len() == 0,
        k > items.len() ==> select(seq![Step::Index(-k)], Json::Array(items)).len() == 0,
        v !is Array ==> select(seq![Step::Index(k)], v).len() == 0 && select(
            seq![Step::Index(-k)],
            v,
        ).len() == 0,
{
    lemma_one_step(Step::Index(k), Json::Array(items));
    lemma_one_step(Step::Index(-k), Json::Array(items));
    lemma_one_step(Step::Index(items.len() - k), Json::Array(items));
    lemma_one_step(Step::Index(k), v);
    lemma_one_step(Step::Index(-k), v);
}

/// Distinct indices of one sign stand for distinct positions: where both select something in an
/// array whose items all differ, they select different items.
pub proof fn law_distinct_indices_select_distinct_items(items: Seq<Json>, a: int, b: int)
    requires
        a != b,
        (a < 0) == (b < 0),
        -(items.len() as int) <= a < items.len(),
        -(items.len() as int) <= b < items.len(),
        items.no_duplicates(),
    ensures
        select(seq![Step::Index(a)], Json::Array(items)).len() == 1,
        select(seq![Step::Index(b)], Json::Array(items)).len() == 1,
        select(seq![Step::Index(a)], Json::Array(items))[0] != select(
            seq![Step::Index(b)],
            Json::Array(items),
        )[0],
{
    let null = Json::Null;
    if a < 0 {
        law_positions_count_from_either_end(items, -a, null);
        law_positions_count_from_either_end(items, -b, null);
    } else {
        law_positions_count_from_either_end(items, a, null);
        law_positions_count_from_either_end(items, b, null);
    }
}

/// `[]` selects every item of an array in order, and nothing in any other value.
pub proof fn law_fan_out_selects_every_item(items: Seq<Json>, v: Json)
    ensures
        select(seq![Step::Each], Json::Array(items)) == items,
        v !is Array ==> select(seq![Step::Each], v).len() == 0,
{
    lemma_one_step(Step::Each, Json::Array(items));
    lemma_one_step(Step::Each, v);
}

/// A key selects the first member of that name, whatever stands before and behind it; it selects
/// nothing in an object without such a member, and nothing in any other value.
pub proof fn law_key_selects_the_first_member(
    before: Seq<(Name, Json)>,
    name: Name,
    found: Json,
    behind: Seq<(Name, Json)>,
    v: Json,
)
    requires
        forall|i: int| 0 <= i < before.len() ==> (#[trigger] before[i]).0 != name,
    ensures
        select(seq![Step::Key(name)], Json::Object(before + seq![(name, found)] + behind))
            == seq![found],
        select(seq![Step::Key(name)], Json::Object(before)).len() == 0,
        v !is Object ==> select(seq![Step::Key(name)], v).len() == 0,
{
    lemma_one_step(Step::Key(name), Json::Object(before + seq![(name, found)] + behind));
    lemma_one_step(Step::Key(name), Json::Object(before));
    lemma_one_step(Step::Key(name), v);
    model::law_first_member_is_found(before, name, found, behind);
}

/// What `steps` select in each of `values`, one after the other.
pub open spec fn gathered(values: Seq<Json>, steps: Seq<Step>) -> Seq<Json>
    decreases values.len(),
{
    if values.len() == 0 {
        Seq::empty()
    } else {
        gathered(values.drop_last(), steps) + select(steps, values.last())
    }
}

proof fn lemma_gathered(values: Seq<Json>, steps: Seq<Step>)
    ensures
        gathered(values, steps) == select_all(steps, values),
    decreases values.len(),
{
    if values.len() == 0 {
        assert(values =~= Seq::empty());
        lemma_select_none(steps);
    } else {
        lemma_gathered(values.drop_last(), steps);
        lemma_select_concat(steps, values.drop_last(), seq![values.last()]);
        lemma_select_one(steps, values.last());
        assert(values.drop_last() + seq![values.last()] =~= values);
    }
}

/// A path without steps selects the value itself, and a path of two parts selects what the
/// second part selects in each value that the first part selects, in that order.
pub proof fn law_longer_paths_reach_further(first: Seq<Step>, second: Seq<Step>, v: Json)
    ensures
        select(Seq::empty(), v) == seq![v],
        select(first + second, v) == gathered(select(first, v), second),
{
    law_paths_compose(first, second, v);
    lemma_gathered(select(first, v), second);
}

// ---------------------------------------------------------------------------------------------
// The pieces of a path
// ---------------------------------------------------------------------------------------------

/// Whether `piece` is a way to write `step`: a key as it is, with a dot in front unless it is the
/// first step; `[]` for every item; and a position in brackets. There may be a dot in front of
/// brackets too, unless they are the first step.
pub open spec fn is_piece(piece: Seq<char>, step: Step, first: bool) -> bool {
    let dot: int = if !first && piece.len() > 0 && piece[0] == '.' {
        1
    } else {
        0
    };
    match step {
        Step::Key(name) => is_plain(name) && piece == (if first {
            name
        } else {
            seq!['.'] + name
        }),
        _ => {
            let inner = piece.subrange(dot + 1, piece.len() - 1);
            &&& piece.len() >= dot + 2
            &&& piece[dot] == '['
            &&& piece.last() == ']'
            &&& !inner.contains(']')
            &&& step is Each ==> inner.len() == 0
            &&& step matches Step::Index(n) ==> text::signed_value(inner) == Some(n) && i64::MIN
                <= n <= i64::MAX
        },
    }
}

/// Whether `pieces` are ways to write `steps`, one for each, where the first of them is the first
/// of a path or not.
pub open spec fn are_pieces(pieces: Seq<Seq<char>>, steps: Seq<Step>, first: bool) -> bool {
    &&& pieces.len() == steps.len()
    &&& forall|i: int|
        0 <= i < steps.len() ==> is_piece(#[trigger] pieces[i], steps[i], first && i == 0)
}

/// `rest` with more steps in front.
spec fn prefixed(steps: Seq<Step>, rest: Result<Seq<Step>, PathFault>) -> Result<
    Seq<Step>,
    PathFault,
> {
    match rest {
        Ok(more) => Ok(steps + more),
        Err(fault) => Err(fault),
    }
}

/// Whether `tail` can follow the text of `step`: a key ends at a dot or an opening bracket.
spec fn can_follow(step: Step, tail: Seq<char>) -> bool {
    tail.len() == 0 || tail[0] == '.' || tail[0] == '[' || step !is Key
}

/// Behind the text `before`, a step is read from a piece for it.
proof fn lemma_piece_read(
    before: Seq<char>,
    piece: Seq<char>,
    step: Step,
    tail: Seq<char>,
    first: bool,
)
    requires
        is_piece(piece, step, first),
        can_follow(step, tail),
    ensures
        piece.len() > 0,
        !first ==> piece[0] == '.' || piece[0] == '[',
        ({
            let s = before + piece + tail;
            let end = before.len() + piece.len();
            compile_from(s, before.len() as int, first) == preceded(
                step,
                compile_from(s, end as int, false),
            )
        }),
{
    let s = before + piece + tail;
    let p = before.len() as int;
    let end = p + piece.len();
    match step {
        Step::Key(_) => {
            assert(piece == step_text(step, first));
            lemma_step_read(before, step, tail, first);
        },
        _ => {
            let dot: int = if !first && piece[0] == '.' {
                1
            } else {
                0
            };
            let inner = piece.subrange(dot + 1, piece.len() - 1);
            assert(s[p + dot] == piece[dot]);
            assert(s[end - 1] == piece.last());
            assert(s.subrange(p + dot + 1, end - 1) =~= inner);
            assert forall|i: int| p + dot < i < end - 1 implies (#[trigger] s[i]) != ']' by {
                assert(s[i] == inner[i - p - dot - 1]);
            }
            if step is Index {
                assert(inner.len() > 0);
            }
            if dot == 1 {
                assert(s[p] == '.');
                lemma_bracket_read(s, p + 1, end, step, true);
            } else {
                lemma_bracket_read(s, p, end, step, first);
            }
        },
    }
}

proof fn lemma_pieces_then(
    before: Seq<char>,
    pieces: Seq<Seq<char>>,
    steps: Seq<Step>,
    first: bool,
    tail: Seq<char>,
)
    requires
        are_pieces(pieces, steps, first),
        steps.len() > 0,
        can_follow(steps.last(), tail),
    ensures
        ({
            let s = before + text::joined(pieces) + tail;
            let end = before.len() + text::joined(pieces).len();
            compile_from(s, before.len() as int, first) == prefixed(
                steps,
                compile_from(s, end as int, false),
            )
        }),
        text::joined(pieces).len() > 0,
        !first ==> text::joined(pieces)[0] == '.' || text::joined(pieces)[0] == '[',
    decreases steps.len(),
{
    let head = pieces[0];
    let others = pieces.drop_first();
    let rest = steps.drop_first();
    let more = text::joined(others);
    let s = before + text::joined(pieces) + tail;
    let end = (before.len() + text::joined(pieces).len()) as int;
    assert(is_piece(pieces[0], steps[0], first));
    assert(s =~= before + head + (more + tail));
    if rest.len() == 0 {
        assert(more + tail =~= tail);
        assert(steps =~= seq![steps[0]]);
        lemma_piece_read(before, head, steps[0], more + tail, first);
        assert(text::joined(pieces) =~= head);
        match compile_from(s, end, false) {
            Ok(x) => {
                assert(seq![steps[0]] + x =~= steps + x);
            },
            Err(_) => {},
        }
    } else {
        assert forall|i: int| 0 <= i < rest.len() implies is_piece(
            #[trigger] others[i],
            rest[i],
            false,
        ) by {
            assert(is_piece(pieces[i + 1], steps[i + 1], false));
        }
        assert(rest.last() == steps.last());
        lemma_pieces_then(before + head, others, rest, false, tail);
        assert((more + tail)[0] == more[0]);
        lemma_piece_read(before, head, steps[0], more + tail, first);
        assert((before + head) + more + tail =~= s);
        match compile_from(s, end, false) {
            Ok(x) => {
                assert(seq![steps[0]] + (rest + x) =~= steps + x);
            },
            Err(_) => {},
        }
    }
}

/// Pieces for steps, one behind the other, compile to the steps.
pub proof fn law_pieces_compile(pieces: Seq<Seq<char>>, steps: Seq<Step>)
    requires
        are_pieces(pieces, steps, true),
        steps.len() > 0,
    ensures
        compile(text::joined(pieces)) == Ok::<Seq<Step>, PathFault>(steps),
{
    let none = Seq::<char>::empty();
    lemma_pieces_then(none, pieces, steps, true, none);
    assert(none + text::joined(pieces) + none =~= text::joined(pieces));
    assert(steps + Seq::<Step>::empty() =~= steps);
}

proof fn lemma_compiled_pieces(s: Seq<char>, p: int, from: int, first: bool) -> (pieces: Seq<
    Seq<char>,
>)
    requires
        0 <= from <= p <= s.len(),
        from == p || (from + 1 == p && s[from] == '.' && !first),
        compile_from(s, p, first || from < p) is Ok,
    ensures
        are_pieces(pieces, compile_from(s, p, first || from < p)->Ok_0, first),
        text::joined(pieces) == s.skip(from),
    decreases s.len() - p,
{
    let expect = first || from < p;
    let steps = compile_from(s, p, expect)->Ok_0;
    if p == s.len() {
        assert(s.skip(from) =~= Seq::<char>::empty());
        Seq::empty()
    } else if s[p] == '[' {
        lemma_bracket_end(s, p);
        let close = bracket_end(s, p);
        let piece = s.subrange(from, close + 1);
        let inner = s.subrange(p + 1, close);
        let rest = lemma_compiled_pieces(s, close + 1, close + 1, false);
        let pieces = seq![piece] + rest;
        assert(piece[p - from] == s[p]);
        if from < p {
            assert(piece[0] == '.');
        }
        assert(piece.last() == ']');
        assert(piece.subrange(p - from + 1, piece.len() - 1) =~= inner);
        assert(!inner.contains(']')) by {
            if inner.contains(']') {
                let k = choose|k: int| 0 <= k < inner.len() && inner[k] == ']';
                assert(s[p + 1 + k] == ']');
                lemma_no_close_before(s, p, p + 1 + k);
            }
        }
        lemma_pieces_in_front(piece, rest, steps, first);
        assert(s.skip(from) =~= piece + s.skip(close + 1));
        assert(pieces.drop_first() =~= rest);
        pieces
    } else if s[p] == '.' {
        lemma_compiled_pieces(s, p + 1, p, false)
    } else {
        lemma_key_end(s, p);
        let end = key_end(s, p);
        let piece = s.subrange(from, end);
        let rest = lemma_compiled_pieces(s, end, end, false);
        let pieces = seq![piece] + rest;
        let name = s.subrange(p, end);
        lemma_key_is_plain(s, p);
        if from < p {
            assert(piece =~= seq!['.'] + name);
        } else {
            assert(piece =~= name);
        }
        lemma_pieces_in_front(piece, rest, steps, first);
        assert(s.skip(from) =~= piece + s.skip(end));
        assert(pieces.drop_first() =~= rest);
        pieces
    }
}

proof fn lemma_pieces_in_front(
    piece: Seq<char>,
    rest: Seq<Seq<char>>,
    steps: Seq<Step>,
    first: bool,
)
    requires
        steps.len() > 0,
        is_piece(piece, steps[0], first),
        are_pieces(rest, steps.drop_first(), false),
    ensures
        are_pieces(seq![piece] + rest, steps, first),
{
    let pieces = seq![piece] + rest;
    assert forall|i: int| 0 <= i < steps.len() implies is_piece(
        #[trigger] pieces[i],
        steps[i],
        first && i == 0,
    ) by {
        if i > 0 {
            assert(is_piece(rest[i - 1], steps.drop_first()[i - 1], false));
        }
    }
}

proof fn lemma_no_close_before(s: Seq<char>, p: int, k: int)
    requires
        0 <= p <= k < bracket_end(s, p),
    ensures
        s[k] != ']',
    decreases k - p,
{
    if p < k {
        lemma_no_close_before(s, p + 1, k);
    }
}

proof fn lemma_key_is_plain(s: Seq<char>, p: int)
    requires
        0 <= p < s.len(),
        s[p] != '.',
        s[p] != '[',
    ensures
        p < key_end(s, p) <= s.len(),
        is_plain(s.subrange(p, key_end(s, p))),
{
    let end = key_end(s, p);
    lemma_key_end(s, p);
    assert forall|i: int| 0 <= i < end - p implies (#[trigger] s.subrange(p, end)[i]) != '.'
        && s.subrange(p, end)[i] != '[' by {
        lemma_key_before(s, p, p + i);
    }
}

proof fn lemma_key_before(s: Seq<char>, p: int, k: int)
    requires
        0 <= p <= k < key_end(s, p),
    ensures
        s[k] != '.',
        s[k] != '[',
    decreases k - p,
{
    if p < k {
        lemma_key_before(s, p + 1, k);
    }
}

/// A text that compiles is made of pieces for its steps, and of nothing else.
pub proof fn law_compiled_path_is_made_of_pieces(s: Seq<char>, steps: Seq<Step>) -> (pieces: Seq<
    Seq<char>,
>)
    requires
        compile(s) == Ok::<Seq<Step>, PathFault>(steps),
    ensures
        steps.len() > 0,
        are_pieces(pieces, steps, true),
        text::joined(pieces) == s,
{
    law_compiled_steps_are_expressible(s);
    let pieces = lemma_compiled_pieces(s, 0, 0, true);
    assert(s.skip(0) =~= s);
    pieces
}

// ---------------------------------------------------------------------------------------------
// Paths that do not compile
// ---------------------------------------------------------------------------------------------

proof fn lemma_ascii_offset(text: Seq<char>, c: char, tail: Seq<char>)
    requires
        c as u32 <= 0x7f,
    ensures
        ({
            let s = text + seq![c] + tail;
            let p = text.len() as int;
            &&& text::byte_offset(s, p) == encode_utf8(text).len()
            &&& text::byte_offset(s, p + 1) == encode_utf8(text).len() + 1
            &&& encode_utf8(text + seq![c]).len() == encode_utf8(text).len() + 1
        }),
{
    let s = text + seq![c] + tail;
    assert(s.take(text.len() as int) =~= text);
    assert(s.take((text.len() + 1) as int) =~= text + seq![c]);
    text::lemma_encode_concat(text, seq![c]);
    assert(vstd::utf8::is_ascii_chars(seq![c]));
    vstd::utf8::is_ascii_chars_encode_utf8(seq![c]);
}

/// A path that ends in a dot lacks a step at its end; two dots in a row lack one at the second;
/// a path that starts with a dot lacks one at its start; and a path without characters is empty.
pub proof fn law_missing_steps_are_reported(
    pieces: Seq<Seq<char>>,
    steps: Seq<Step>,
    rest: Seq<char>,
)
    requires
        steps.len() > 0,
        are_pieces(pieces, steps, true),
    ensures
        ({
            let text = text::joined(pieces);
            let bytes = encode_utf8(text).len();
            &&& compile(text + seq!['.']) == Err::<Seq<Step>, PathFault>(
                PathFault::EmptySegment(bytes + 1),
            )
            &&& compile(text + seq!['.', '.'] + rest) == Err::<Seq<Step>, PathFault>(
                PathFault::EmptySegment(bytes + 1),
            )
            &&& compile(seq!['.'] + rest) == Err::<Seq<Step>, PathFault>(PathFault::EmptySegment(0))
            &&& compile(Seq::empty()) == Err::<Seq<Step>, PathFault>(PathFault::Empty)
        }),
{
    let text = text::joined(pieces);
    let n = text.len() as int;
    let none = Seq::<char>::empty();
    // A dot at the end.
    let s = text + seq!['.'];
    lemma_pieces_then(none, pieces, steps, true, seq!['.']);
    assert(none + text + seq!['.'] =~= s);
    lemma_ascii_offset(text, '.', none);
    assert(s[n] == '.');
    assert(compile_from(s, n, false) == compile_from(s, n + 1, true));
    // Two dots.
    let t = text + seq!['.', '.'] + rest;
    lemma_pieces_then(none, pieces, steps, true, seq!['.', '.'] + rest);
    assert(none + text + (seq!['.', '.'] + rest) =~= t);
    lemma_ascii_offset(text, '.', seq!['.'] + rest);
    assert(text + seq!['.'] + (seq!['.'] + rest) =~= t);
    assert(t[n] == '.' && t[n + 1] == '.');
    assert(compile_from(t, n, false) == compile_from(t, n + 1, true));
    // A dot at the start.
    let u = seq!['.'] + rest;
    assert(u.take(0) =~= none);
    assert(u[0] == '.');
}

/// An opening bracket without a closing one is reported where it stands, with or without a dot
/// before it.
pub proof fn law_open_brackets_are_reported(
    pieces: Seq<Seq<char>>,
    steps: Seq<Step>,
    dot: Seq<char>,
    rest: Seq<char>,
)
    requires
        are_pieces(pieces, steps, true),
        dot == Seq::<char>::empty() || (dot == seq!['.'] && steps.len() > 0),
        !rest.contains(']'),
    ensures
        compile(text::joined(pieces) + dot + seq!['['] + rest) == Err::<Seq<Step>, PathFault>(
            PathFault::UnclosedBracket(encode_utf8(text::joined(pieces) + dot).len()),
        ),
{
    let start = text::joined(pieces) + dot;
    let n = start.len() as int;
    let s = start + seq!['['] + rest;
    lemma_ascii_offset(start, '[', rest);
    assert(s[n] == '[');
    lemma_no_bracket(s, n);
    lemma_read_up_to(pieces, steps, dot, seq!['['] + rest);
    assert(s =~= start + (seq!['['] + rest));
}

/// Whole pieces, and a dot behind them or none, are read up to a bracket.
proof fn lemma_read_up_to(
    pieces: Seq<Seq<char>>,
    steps: Seq<Step>,
    dot: Seq<char>,
    behind: Seq<char>,
)
    requires
        are_pieces(pieces, steps, true),
        dot == Seq::<char>::empty() || (dot == seq!['.'] && steps.len() > 0),
        behind.len() > 0,
        behind[0] == '[',
    ensures
        ({
            let start = text::joined(pieces) + dot;
            let expect = steps.len() == 0 || dot.len() > 0;
            compile(start + behind) == prefixed(
                steps,
                compile_from(start + behind, start.len() as int, expect),
            )
        }),
{
    let text = text::joined(pieces);
    let start = text + dot;
    let s = start + behind;
    let none = Seq::<char>::empty();
    if steps.len() > 0 {
        let tail = dot + behind;
        assert(tail[0] == '.' || tail[0] == '[');
        lemma_pieces_then(none, pieces, steps, true, tail);
        assert(none + text + tail =~= s);
        if dot.len() > 0 {
            assert(s[text.len() as int] == '.');
        } else {
            assert(start =~= text);
        }
    } else {
        assert(start =~= none);
        assert(s.len() > 0);
        match compile_from(s, 0, true) {
            Ok(x) => {
                assert(steps + x =~= x);
            },
            Err(_) => {},
        }
    }
}

proof fn lemma_no_bracket(s: Seq<char>, p: int)
    requires
        0 <= p <= s.len(),
        forall|i: int| p <= i < s.len() ==> (#[trigger] s[i]) != ']',
    ensures
        bracket_end(s, p) == s.len(),
    decreases s.len() - p,
{
    if p < s.len() {
        lemma_no_bracket(s, p + 1);
    }
}

/// A text between brackets that is no position is reported where it starts, as it stands, with or
/// without a dot before the brackets.
pub proof fn law_bad_positions_are_reported(
    pieces: Seq<Seq<char>>,
    steps: Seq<Step>,
    dot: Seq<char>,
    inner: Seq<char>,
    rest: Seq<char>,
)
    requires
        are_pieces(pieces, steps, true),
        dot == Seq::<char>::empty() || (dot == seq!['.'] && steps.len() > 0),
        inner.len() > 0,
        !inner.contains(']'),
        text::signed_value(inner) matches Some(n) ==> n < i64::MIN || n > i64::MAX,
    ensures
        compile(text::joined(pieces) + dot + seq!['['] + inner + seq![']'] + rest) == Err::<
            Seq<Step>,
            PathFault,
        >(PathFault::BadIndex(encode_utf8(text::joined(pieces) + dot).len() + 1, inner)),
{
    let start = text::joined(pieces) + dot;
    let n = start.len() as int;
    let behind = seq!['['] + inner + seq![']'] + rest;
    let s = start + behind;
    let close = n + 1 + inner.len();
    assert(s =~= start + seq!['['] + inner + seq![']'] + rest);
    lemma_ascii_offset(start, '[', inner + seq![']'] + rest);
    assert(start + seq!['['] + (inner + seq![']'] + rest) =~= s);
    assert(s[n] == '[');
    assert(s[close] == ']');
    assert forall|i: int| n <= i < close implies (#[trigger] s[i]) != ']' by {
        if i > n {
            assert(s[i] == inner[i - n - 1]);
        }
    }
    lemma_find_bracket(s, n, close);
    assert(s.subrange(n + 1, close) =~= inner);
    lemma_read_up_to(pieces, steps, dot, behind);
}

/// A key right behind a bracket is reported where it starts.
pub proof fn law_missing_dots_are_reported(
    pieces: Seq<Seq<char>>,
    steps: Seq<Step>,
    c: char,
    rest: Seq<char>,
)
    requires
        steps.len() > 0,
        are_pieces(pieces, steps, true),
        steps.last() !is Key,
        c != '.' && c != '[',
    ensures
        compile(text::joined(pieces) + seq![c] + rest) == Err::<Seq<Step>, PathFault>(
            PathFault::MissingSeparator(encode_utf8(text::joined(pieces)).len()),
        ),
{
    let text = text::joined(pieces);
    let n = text.len() as int;
    let none = Seq::<char>::empty();
    let s = text + seq![c] + rest;
    lemma_pieces_then(none, pieces, steps, true, seq![c] + rest);
    assert(none + text + (seq![c] + rest) =~= s);
    assert(s[n] == c);
    assert(s.take(n) =~= text);
}

/// A position may be written with a sign and with zeros in front; they make no difference.
pub proof fn law_positions_may_have_zeros(n: nat, zeros: nat)
    requires
        n <= i64::MAX,
    ensures
        compile(seq!['['] + text::zeros(zeros) + text::decimal(n) + seq![']']) == Ok::<
            Seq<Step>,
            PathFault,
        >(seq![Step::Index(n as int)]),
        compile(seq!['[', '+'] + text::zeros(zeros) + text::decimal(n) + seq![']']) == Ok::<
            Seq<Step>,
            PathFault,
        >(seq![Step::Index(n as int)]),
        compile(seq!['[', '-'] + text::zeros(zeros) + text::decimal(n) + seq![']']) == Ok::<
            Seq<Step>,
            PathFault,
        >(seq![Step::Index(-(n as int))]),
{
    let digits = text::zeros(zeros) + text::decimal(n);
    text::law_numerals_are_read(n, zeros);
    lemma_one_position(digits, n as int);
    lemma_one_position(seq!['+'] + digits, n as int);
    lemma_one_position(seq!['-'] + digits, -(n as int));
    assert(seq!['['] + digits + seq![']'] =~= seq!['['] + text::zeros(zeros) + text::decimal(n)
        + seq![']']);
    assert(seq!['['] + (seq!['+'] + digits) + seq![']'] =~= seq!['[', '+'] + text::zeros(zeros)
        + text::decimal(n) + seq![']']);
    assert(seq!['['] + (seq!['-'] + digits) + seq![']'] =~= seq!['[', '-'] + text::zeros(zeros)
        + text::decimal(n) + seq![']']);
}

proof fn lemma_one_position(inner: Seq<char>, n: int)
    requires
        text::signed_value(inner) == Some(n),
        i64::MIN <= n <= i64::MAX,
        inner.len() > 0,
        !inner.contains(']'),
    ensures
        compile(seq!['['] + inner + seq![']']) == Ok::<Seq<Step>, PathFault>(
            seq![Step::Index(n)],
        ),
{
    let s = seq!['['] + inner + seq![']'];
    let end = s.len() as int;
    assert(s.subrange(1, end - 1) =~= inner);
    assert forall|i: int| 0 < i < end - 1 implies (#[trigger] s[i]) != ']' by {
        assert(s[i] == inner[i - 1]);
    }
    lemma_bracket_read(s, 0, end, Step::Index(n), true);
    assert(seq![Step::Index(n)] + Seq::<Step>::empty() =~= seq![Step::Index(n)]);
}

/// What is said of a fault ends with the offset at which it shows, and names the position that is
/// none as it stands.
pub proof fn law_faults_name_their_place(at: nat, inner: Seq<char>)
    ensures
        fault_text(PathFault::Empty) == "empty field path"@,
        fault_text(PathFault::EmptySegment(at)) == "empty path segment at offset "@
            + text::decimal(at),
        fault_text(PathFault::UnclosedBracket(at)) == "unclosed '[' at offset "@ + text::decimal(
            at,
        ),
        fault_text(PathFault::BadIndex(at, inner)) == "invalid array index '"@ + inner
            + "' at offset "@ + text::decimal(at),
        fault_text(PathFault::MissingSeparator(at)) == "expected '.' before the key at offset "@
            + text::decimal(at),
{
}

} // verus!
