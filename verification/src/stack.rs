//! Reading a value without recursion.
//!
//! A value may hold containers that hold containers. [`value`] reads them
//! in one loop: the containers that have been entered and not yet left are
//! kept on a stack in the heap, so the call stack does not grow with the
//! depth to which the text nests them. The loop is proved to give what the
//! grammar, which is recursive, gives.

use crate::error::{Context, ErrorKind, Failure, ParseError};
use crate::grammar;
use crate::grammar::{CLOSE_BRACE, CLOSE_BRACKET, COMMA, OPEN_BRACE, OPEN_BRACKET};
use crate::lexical::skip_whitespace;
use crate::parser::{member_key, scalar, yields};
use crate::value::{discard, upsert, JsonModel, JsonValue};
use vstd::prelude::*;
use vstd::string::StringSliceAdditionalSpecFns;

verus! {

/// A container that has been entered and not yet left: where it starts,
/// what it holds so far, and the offset at which its next value is due.
enum Frame {
    Array { start: usize, at: usize, elements: Vec<JsonValue> },
    /// `name` is the key of the member whose value is due.
    Object { start: usize, at: usize, entries: Vec<(String, JsonValue)>, name: String },
}

/// What is to be done next: to read the value that is due at an offset, or
/// to hand a value that has been read, with the white space behind it, to
/// the container that waits for it.
enum Task {
    Value(usize),
    Deliver(JsonValue, usize),
}

/// What a task comes to: the task that follows it, or the outcome of the
/// whole value.
enum Step {
    Next(Task),
    Done(Result<(JsonValue, usize), ParseError>),
}

impl Task {
    /// The offset that the task has reached.
    spec fn position(self) -> int {
        match self {
            Task::Value(p) => p as int,
            Task::Deliver(_, r) => r as int,
        }
    }
}

impl Frame {
    /// The offset of the opening bracket or brace.
    spec fn start(self) -> int {
        match self {
            Frame::Array { start, .. } => start as int,
            Frame::Object { start, .. } => start as int,
        }
    }

    /// The offset at which the next value of the container is due.
    spec fn at(self) -> int {
        match self {
            Frame::Array { at, .. } => at as int,
            Frame::Object { at, .. } => at as int,
        }
    }

    /// The elements that an array holds so far.
    spec fn elements(self) -> Seq<JsonModel> {
        match self {
            Frame::Array { elements, .. } => JsonValue::items_view(
                elements@,
                elements@.len() as int,
            ),
            Frame::Object { .. } => Seq::empty(),
        }
    }

    /// The members that an object holds so far.
    spec fn members(self) -> Map<Seq<char>, JsonModel> {
        match self {
            Frame::Array { .. } => Map::empty(),
            Frame::Object { entries, .. } => JsonValue::entries_view(
                entries@,
                entries@.len() as int,
            ),
        }
    }

    /// The key of the member whose value is due.
    spec fn name(self) -> Seq<char> {
        match self {
            Frame::Array { .. } => Seq::empty(),
            Frame::Object { name, .. } => name@,
        }
    }

    /// What the grammar makes of the container from its start.
    spec fn whole(self, s: Seq<u8>) -> Result<(JsonModel, int), Failure> {
        match self {
            Frame::Array { .. } => grammar::array(s, self.start()),
            Frame::Object { .. } => grammar::object(s, self.start()),
        }
    }

    /// What the grammar makes of the container from the value that is due,
    /// given what the frame holds.
    spec fn pending(self, s: Seq<u8>) -> Result<(JsonModel, int), Failure> {
        match self {
            Frame::Array { .. } => as_array(grammar::items(s, self.at(), self.elements())),
            Frame::Object { .. } => as_object(
                grammar::member_value(s, self.at(), self.members(), self.name()),
            ),
        }
    }

    /// What the frame holds is well formed.
    spec fn holds_wf(self) -> bool {
        match self {
            Frame::Array { elements, .. } => forall|i: int|
                0 <= i < elements@.len() ==> (#[trigger] elements@[i]).wf(),
            Frame::Object { entries, .. } => JsonValue::members_wf(entries@),
        }
    }

    /// The frame stands for the value that is due at `due`: that value is
    /// the container of the frame, and nothing else, and what the frame
    /// holds is what the grammar has read of it.
    #[verifier::opaque]
    spec fn stands(self, s: Seq<u8>, due: int) -> bool {
        &&& self.holds_wf()
        &&& due <= self.start() < self.at() <= s.len()
        &&& self.start() == grammar::skip_spaces(s, due)
        &&& grammar::scalar(s, self.start()) is None
        &&& s[self.start()] == match self {
            Frame::Array { .. } => OPEN_BRACKET,
            Frame::Object { .. } => OPEN_BRACE,
        }
        &&& self.whole(s) == self.pending(s)
    }

    /// The offset of the opening bracket or brace.
    fn opening(&self) -> (r: usize)
        ensures
            r == self.start(),
    {
        match self {
            Frame::Array { start, .. } => *start,
            Frame::Object { start, .. } => *start,
        }
    }
}

/// The elements of an array as the array that they make.
spec fn as_array(read: Result<(Seq<JsonModel>, int), Failure>) -> Result<(JsonModel, int), Failure> {
    match read {
        Ok((elements, r)) => Ok((JsonModel::Array(elements), r)),
        Err(e) => Err(e),
    }
}

/// The members of an object as the object that they make.
spec fn as_object(read: Result<(Map<Seq<char>, JsonModel>, int), Failure>) -> Result<
    (JsonModel, int),
    Failure,
> {
    match read {
        Ok((members, r)) => Ok((JsonModel::Object(members), r)),
        Err(e) => Err(e),
    }
}

/// The failure of a value that starts at `q`.
spec fn refused(q: int) -> Result<(JsonModel, int), Failure> {
    Err(Failure::at(ErrorKind::NoMatchingAlternative, q, Context::Value))
}

/// The value `v` that ends at `r`, with the white space behind it.
spec fn delivered(s: Seq<u8>, v: JsonModel, r: int) -> Result<(JsonModel, int), Failure> {
    Ok((v, grammar::skip_spaces(s, r)))
}

/// The offset at which the value is due that the `k`th of `frames` stands
/// for: that of the frame below it, or `pos` for the lowest.
spec fn due(frames: Seq<Frame>, pos: int, k: int) -> int {
    if k <= 0 {
        pos
    } else {
        frames[k - 1].at()
    }
}

/// Every frame stands for the value that is due below it.
spec fn stack_stands(s: Seq<u8>, pos: int, frames: Seq<Frame>) -> bool {
    forall|k: int| 0 <= k < frames.len() ==> (#[trigger] frames[k]).stands(s, due(frames, pos, k))
}

/// The offset that a failure inside the frames is reported at: the start
/// of the lowest frame, or `q` where there is none.
spec fn lowest(frames: Seq<Frame>, q: int) -> int {
    if frames.len() > 0 {
        frames[0].start()
    } else {
        q
    }
}

/// The frames stand, and `task` is the one that is due on top of them:
/// the value to read is the one that the top frame waits for, or the value
/// to deliver is that value as the grammar gives it.
spec fn ready(s: Seq<u8>, pos: int, frames: Seq<Frame>, task: Task) -> bool {
    &&& stack_stands(s, pos, frames)
    &&& match task {
        Task::Value(p) => p == due(frames, pos, frames.len() as int),
        Task::Deliver(v, r) => v.wf() && grammar::value(s, due(frames, pos, frames.len() as int))
            == Ok::<(JsonModel, int), Failure>((v@, r as int)),
    }
}

/// The step leads on from the offset `from`: to a task that is due on top
/// of the frames and lies further on in the text, or to the outcome that
/// the grammar gives for the value at `pos`.
spec fn leads_on(s: Seq<u8>, pos: int, frames: Seq<Frame>, step: Step, from: int) -> bool {
    match step {
        Step::Next(task) => ready(s, pos, frames, task) && from < task.position() <= s.len(),
        Step::Done(r) => yields(r, grammar::value(s, pos)),
    }
}

/// The value for which a frame stands is the container of the frame: it
/// fails where the container fails, at the start of the container.
proof fn lemma_frame_value(s: Seq<u8>, due: int, f: Frame)
    requires
        f.stands(s, due),
    ensures
        grammar::value(s, due) == match f.whole(s) {
            Ok((v, r)) => delivered(s, v, r),
            Err(_) => refused(f.start()),
        },
        due <= f.start() < f.at() <= s.len(),
{
    reveal(Frame::stands);
}

/// Where the value that is due on top of the frames fails, the value at
/// `pos` fails at the start of the lowest frame.
proof fn lemma_failure_rises(s: Seq<u8>, pos: int, frames: Seq<Frame>, q: int)
    requires
        stack_stands(s, pos, frames),
        grammar::value(s, due(frames, pos, frames.len() as int)) == refused(q),
    ensures
        grammar::value(s, pos) == refused(lowest(frames, q)),
    decreases frames.len(),
{
    if frames.len() > 0 {
        let n = frames.len() as int;
        let top = frames[n - 1];
        let below = frames.drop_last();
        assert(top.stands(s, due(frames, pos, n - 1)));
        assert(top.pending(s) is Err && top.whole(s) is Err) by {
            reveal(Frame::stands);
        }
        lemma_frame_value(s, due(frames, pos, n - 1), top);
        lemma_pop_stands(s, pos, frames);
        lemma_failure_rises(s, pos, below, top.start());
    }
}

/// Putting a frame on top of frames that stand, for the value that is due
/// on top of them, gives frames that stand.
proof fn lemma_push_stands(s: Seq<u8>, pos: int, frames: Seq<Frame>, frame: Frame)
    requires
        stack_stands(s, pos, frames),
        frame.stands(s, due(frames, pos, frames.len() as int)),
    ensures
        stack_stands(s, pos, frames.push(frame)),
        due(frames.push(frame), pos, (frames.len() + 1) as int) == frame.at(),
{
    let after = frames.push(frame);
    assert forall|k: int| 0 <= k < after.len() implies (#[trigger] after[k]).stands(
        s,
        due(after, pos, k),
    ) by {
        if k < frames.len() {
            assert(frames[k].stands(s, due(frames, pos, k)));
        }
    }
}

/// Taking the top frame off frames that stand leaves frames that stand,
/// and the frame taken off stood for the value that is due on top of them.
proof fn lemma_pop_stands(s: Seq<u8>, pos: int, frames: Seq<Frame>)
    requires
        stack_stands(s, pos, frames),
        frames.len() > 0,
    ensures
        stack_stands(s, pos, frames.drop_last()),
        frames.last().stands(s, due(frames.drop_last(), pos, frames.len() - 1)),
        due(frames.drop_last(), pos, frames.len() - 1) == due(frames, pos, frames.len() - 1),
{
    let below = frames.drop_last();
    assert forall|k: int| 0 <= k < below.len() implies (#[trigger] below[k]).stands(
        s,
        due(below, pos, k),
    ) by {
        assert(frames[k].stands(s, due(frames, pos, k)));
    }
    assert(frames[frames.len() - 1].stands(s, due(frames, pos, frames.len() - 1)));
}

/// What stands at `q`, the first offset behind the white space from
/// `lower` on, where no scalar stands there: an empty container is the
/// value, anything but a container is no value, and a container that
/// holds something is entered by a frame that stands.
proof fn lemma_entered(s: Seq<u8>, lower: int, q: int, frame: Frame)
    requires
        q == grammar::skip_spaces(s, lower),
        grammar::scalar(s, q) is None,
    ensures
        !(0 <= q < s.len() && (s[q] == OPEN_BRACKET || s[q] == OPEN_BRACE)) ==> grammar::value(
            s,
            lower,
        ) == refused(q),
        0 <= q < s.len() && s[q] == OPEN_BRACKET ==> {
            let inner = grammar::skip_spaces(s, q + 1);
            if 0 <= inner < s.len() && s[inner] == CLOSE_BRACKET {
                grammar::value(s, lower) == delivered(
                    s,
                    JsonModel::Array(Seq::empty()),
                    inner + 1,
                )
            } else {
                frame is Array && frame.start() == q && frame.at() == q + 1
                    && frame->Array_elements@.len() == 0 ==> frame.stands(s, lower)
            }
        },
        0 <= q < s.len() && s[q] == OPEN_BRACE ==> {
            let inner = grammar::skip_spaces(s, q + 1);
            if 0 <= inner < s.len() && s[inner] == CLOSE_BRACE {
                grammar::value(s, lower) == delivered(
                    s,
                    JsonModel::Object(Map::empty()),
                    inner + 1,
                )
            } else {
                match grammar::member_key(s, q + 1) {
                    Err(_) => grammar::value(s, lower) == refused(q),
                    Ok((name, colon)) => frame is Object && frame.start() == q && frame.at()
                        == colon + 1 && frame->Object_entries@.len() == 0 && frame.name() == name
                        ==> frame.stands(s, lower),
                }
            }
        },
{
    reveal(Frame::stands);
    grammar::lemma_skip_spaces_bounds(s, lower);
    grammar::lemma_member_key_bounds(s, q + 1);
}

/// What an array comes to when the element that it waits for has been
/// read as `v`, up to `r`: it goes on behind a comma with a frame that
/// stands, is the value behind a bracket, and fails otherwise.
proof fn lemma_element_fed(s: Seq<u8>, lower: int, top: Frame, v: JsonModel, r: int, next: Frame)
    requires
        top is Array,
        top.stands(s, lower),
        grammar::value(s, top.at()) == Ok::<(JsonModel, int), Failure>((v, r)),
    ensures
        top.at() < r <= s.len(),
        if r < s.len() && s[r] == COMMA {
            next is Array && next.start() == top.start() && next.at() == r + 1 && next.holds_wf()
                && next.elements() == top.elements().push(v) ==> next.stands(s, lower)
        } else if r < s.len() && s[r] == CLOSE_BRACKET {
            grammar::value(s, lower) == delivered(
                s,
                JsonModel::Array(top.elements().push(v)),
                r + 1,
            )
        } else {
            grammar::value(s, lower) == refused(top.start())
        },
{
    reveal(Frame::stands);
    grammar::lemma_value_end(s, top.at());
}

/// What an object comes to when the value that it waits for has been read
/// as `v`, up to `r`: it goes on behind a comma and the key of a member
/// with a frame that stands, is the value behind a brace, and fails
/// otherwise.
proof fn lemma_member_fed(s: Seq<u8>, lower: int, top: Frame, v: JsonModel, r: int, next: Frame)
    requires
        top is Object,
        top.stands(s, lower),
        grammar::value(s, top.at()) == Ok::<(JsonModel, int), Failure>((v, r)),
    ensures
        top.at() < r <= s.len(),
        if r < s.len() && s[r] == COMMA {
            match grammar::member_key(s, r + 1) {
                Err(_) => grammar::value(s, lower) == refused(top.start()),
                Ok((name, colon)) => r < colon < s.len() && (next is Object && next.start()
                    == top.start() && next.at() == colon + 1 && next.holds_wf() && next.members()
                    == top.members().insert(top.name(), v) && next.name() == name
                    ==> next.stands(s, lower)),
            }
        } else if r < s.len() && s[r] == CLOSE_BRACE {
            grammar::value(s, lower) == delivered(
                s,
                JsonModel::Object(top.members().insert(top.name(), v)),
                r + 1,
            )
        } else {
            grammar::value(s, lower) == refused(top.start())
        },
{
    reveal(Frame::stands);
    grammar::lemma_value_end(s, top.at());
    grammar::lemma_member_key_bounds(s, r + 1);
}

/// The failure of a value inside the frames of `stack`, or at `q` where
/// there are none.
fn failure(stack: &Vec<Frame>, q: usize) -> (e: Result<(JsonValue, usize), ParseError>)
    ensures
        yields(e, refused(lowest(stack@, q as int))),
{
    let at = if stack.len() > 0 {
        stack[0].opening()
    } else {
        q
    };
    Err(ParseError::new(ErrorKind::NoMatchingAlternative, at, Context::Value))
}

/// Reads the value that is due at `p`, as far as that takes no other
/// value: a scalar or an empty container is handed on, a container that
/// holds something is entered.
fn enter(text: &str, pos: usize, stack: &mut Vec<Frame>, p: usize) -> (step: Step)
    requires
        ready(text.spec_bytes(), pos as int, old(stack)@, Task::Value(p)),
    ensures
        leads_on(text.spec_bytes(), pos as int, final(stack)@, step, p as int),
{
    let bytes = text.as_bytes();
    let ghost s = text.spec_bytes();
    let ghost frames = stack@;
    let q = skip_whitespace(bytes, p);
    proof {
        grammar::lemma_skip_spaces_bounds(s, p as int);
        grammar::lemma_alternatives_end(s, q as int);
    }
    match scalar(text, q) {
        Some((v, end)) => {
            proof {
                grammar::lemma_skip_spaces_bounds(s, end as int);
            }
            return Step::Next(Task::Deliver(v, skip_whitespace(bytes, end)));
        },
        None => {},
    }
    if q < bytes.len() && bytes[q] == OPEN_BRACKET {
        let inner = skip_whitespace(bytes, q + 1);
        proof {
            grammar::lemma_skip_spaces_bounds(s, q + 1);
        }
        if inner < bytes.len() && bytes[inner] == CLOSE_BRACKET {
            let read = JsonValue::Array(Vec::new());
            proof {
                lemma_entered(s, p as int, q as int, arbitrary());
                grammar::lemma_skip_spaces_bounds(s, inner + 1);
                assert(read@ == JsonModel::Array(Seq::empty()));
            }
            Step::Next(Task::Deliver(read, skip_whitespace(bytes, inner + 1)))
        } else {
            let frame = Frame::Array { start: q, at: q + 1, elements: Vec::new() };
            proof {
                lemma_entered(s, p as int, q as int, frame);
                lemma_push_stands(s, pos as int, frames, frame);
            }
            stack.push(frame);
            Step::Next(Task::Value(q + 1))
        }
    } else if q < bytes.len() && bytes[q] == OPEN_BRACE {
        let inner = skip_whitespace(bytes, q + 1);
        proof {
            grammar::lemma_skip_spaces_bounds(s, q + 1);
        }
        if inner < bytes.len() && bytes[inner] == CLOSE_BRACE {
            let read = JsonValue::Object(Vec::new());
            proof {
                lemma_entered(s, p as int, q as int, arbitrary());
                grammar::lemma_skip_spaces_bounds(s, inner + 1);
                assert(read@ == JsonModel::Object(Map::empty()));
            }
            Step::Next(Task::Deliver(read, skip_whitespace(bytes, inner + 1)))
        } else {
            match member_key(text, q + 1) {
                Err(_) => {
                    proof {
                        lemma_entered(s, p as int, q as int, arbitrary());
                        lemma_failure_rises(s, pos as int, frames, q as int);
                    }
                    Step::Done(failure(stack, q))
                },
                Ok((name, colon)) => {
                    let frame = Frame::Object {
                        start: q,
                        at: colon + 1,
                        entries: Vec::new(),
                        name,
                    };
                    proof {
                        grammar::lemma_member_key_bounds(s, q + 1);
                        lemma_entered(s, p as int, q as int, frame);
                        lemma_push_stands(s, pos as int, frames, frame);
                    }
                    stack.push(frame);
                    Step::Next(Task::Value(colon + 1))
                },
            }
        }
    } else {
        proof {
            lemma_entered(s, p as int, q as int, arbitrary());
            lemma_failure_rises(s, pos as int, frames, q as int);
        }
        Step::Done(failure(stack, q))
    }
}

/// Hands the element `v`, which ends at `r`, to the array that waited for
/// it, and goes on with what follows the element.
fn feed_array(
    text: &str,
    pos: usize,
    stack: &mut Vec<Frame>,
    start: usize,
    at: usize,
    elements: Vec<JsonValue>,
    v: JsonValue,
    r: usize,
) -> (step: Step)
    requires
        stack_stands(text.spec_bytes(), pos as int, old(stack)@),
        (Frame::Array { start, at, elements }).stands(
            text.spec_bytes(),
            due(old(stack)@, pos as int, old(stack)@.len() as int),
        ),
        (Frame::Array { start, at, elements }).holds_wf(),
        v.wf(),
        grammar::value(text.spec_bytes(), at as int) == Ok::<(JsonModel, int), Failure>(
            (v@, r as int),
        ),
    ensures
        leads_on(text.spec_bytes(), pos as int, final(stack)@, step, r as int),
{
    let bytes = text.as_bytes();
    let ghost s = text.spec_bytes();
    let ghost below = stack@;
    let ghost lower = due(below, pos as int, below.len() as int);
    let ghost top = Frame::Array { start, at, elements };
    proof {
        JsonValue::lemma_items_view_prefix(elements@, elements@.push(v), elements@.len() as int);
    }
    let mut elements = elements;
    elements.push(v);
    if r < bytes.len() && bytes[r] == COMMA {
        let frame = Frame::Array { start, at: r + 1, elements };
        proof {
            lemma_element_fed(s, lower, top, v@, r as int, frame);
            lemma_push_stands(s, pos as int, below, frame);
        }
        stack.push(frame);
        Step::Next(Task::Value(r + 1))
    } else if r < bytes.len() && bytes[r] == CLOSE_BRACKET {
        let read = JsonValue::Array(elements);
        proof {
            lemma_element_fed(s, lower, top, v@, r as int, arbitrary());
            grammar::lemma_skip_spaces_bounds(s, r + 1);
            assert(read@ == JsonModel::Array(top.elements().push(v@)));
        }
        Step::Next(Task::Deliver(read, skip_whitespace(bytes, r + 1)))
    } else {
        proof {
            lemma_element_fed(s, lower, top, v@, r as int, arbitrary());
            lemma_failure_rises(s, pos as int, below, start as int);
        }
        discard(JsonValue::Array(elements));
        Step::Done(failure(stack, start))
    }
}

/// Hands the value `v`, which ends at `r`, to the object that waited for
/// it under the key `name`, and goes on with what follows the member.
fn feed_object(
    text: &str,
    pos: usize,
    stack: &mut Vec<Frame>,
    start: usize,
    at: usize,
    entries: Vec<(String, JsonValue)>,
    name: String,
    v: JsonValue,
    r: usize,
) -> (step: Step)
    requires
        stack_stands(text.spec_bytes(), pos as int, old(stack)@),
        (Frame::Object { start, at, entries, name }).stands(
            text.spec_bytes(),
            due(old(stack)@, pos as int, old(stack)@.len() as int),
        ),
        (Frame::Object { start, at, entries, name }).holds_wf(),
        v.wf(),
        grammar::value(text.spec_bytes(), at as int) == Ok::<(JsonModel, int), Failure>(
            (v@, r as int),
        ),
    ensures
        leads_on(text.spec_bytes(), pos as int, final(stack)@, step, r as int),
{
    let bytes = text.as_bytes();
    let ghost s = text.spec_bytes();
    let ghost below = stack@;
    let ghost lower = due(below, pos as int, below.len() as int);
    let ghost top = Frame::Object { start, at, entries, name };
    let mut entries = entries;
    upsert(&mut entries, name, v);
    if r < bytes.len() && bytes[r] == COMMA {
        match member_key(text, r + 1) {
            Err(_) => {
                proof {
                    lemma_member_fed(s, lower, top, v@, r as int, arbitrary());
                    lemma_failure_rises(s, pos as int, below, start as int);
                }
                discard(JsonValue::Object(entries));
                Step::Done(failure(stack, start))
            },
            Ok((next, colon)) => {
                let frame = Frame::Object { start, at: colon + 1, entries, name: next };
                proof {
                    lemma_member_fed(s, lower, top, v@, r as int, frame);
                    lemma_push_stands(s, pos as int, below, frame);
                }
                stack.push(frame);
                Step::Next(Task::Value(colon + 1))
            },
        }
    } else if r < bytes.len() && bytes[r] == CLOSE_BRACE {
        let read = JsonValue::Object(entries);
        proof {
            lemma_member_fed(s, lower, top, v@, r as int, arbitrary());
            grammar::lemma_skip_spaces_bounds(s, r + 1);
            assert(read@ == JsonModel::Object(top.members().insert(top.name(), v@)));
        }
        Step::Next(Task::Deliver(read, skip_whitespace(bytes, r + 1)))
    } else {
        proof {
            lemma_member_fed(s, lower, top, v@, r as int, arbitrary());
            lemma_failure_rises(s, pos as int, below, start as int);
        }
        discard(JsonValue::Object(entries));
        Step::Done(failure(stack, start))
    }
}

/// Hands the value `v`, which ends at `r`, to the container that waited
/// for it; where none did, it is the value that was asked for.
fn feed(text: &str, pos: usize, stack: &mut Vec<Frame>, v: JsonValue, r: usize) -> (step: Step)
    requires
        ready(text.spec_bytes(), pos as int, old(stack)@, Task::Deliver(v, r)),
    ensures
        leads_on(text.spec_bytes(), pos as int, final(stack)@, step, r as int),
{
    proof {
        if stack@.len() > 0 {
            lemma_pop_stands(text.spec_bytes(), pos as int, stack@);
            reveal(Frame::stands);
        }
    }
    match stack.pop() {
        None => Step::Done(Ok((v, r))),
        Some(Frame::Array { start, at, elements }) => feed_array(
            text,
            pos,
            stack,
            start,
            at,
            elements,
            v,
            r,
        ),
        Some(Frame::Object { start, at, entries, name }) => feed_object(
            text,
            pos,
            stack,
            start,
            at,
            entries,
            name,
            v,
            r,
        ),
    }
}

/// Takes apart what the frames of a value that has failed hold.
fn unwind(stack: Vec<Frame>) {
    let mut stack = stack;
    while stack.len() > 0
        decreases stack.len(),
    {
        match stack.pop() {
            Some(Frame::Array { elements, .. }) => discard(JsonValue::Array(elements)),
            Some(Frame::Object { entries, .. }) => discard(JsonValue::Object(entries)),
            None => {},
        }
    }
}

/// Reads one value, with the white space on either side of it.
///
/// The alternatives are tried in their order: string, number, boolean,
/// null, array, object. Where none matches, or where a container inside
/// the value fails, the value fails at the offset at which it starts.
/// Containers inside the value are not read by recursion: those that have
/// been entered and not yet left are kept on a stack. What has been read
/// of a value that fails is taken apart without recursion too.
pub fn value(text: &str, pos: usize) -> (r: Result<(JsonValue, usize), ParseError>)
    ensures
        yields(r, grammar::value(text.spec_bytes(), pos as int)),
{
    let ghost s = text.spec_bytes();
    let mut stack: Vec<Frame> = Vec::new();
    let mut task = Task::Value(pos);
    loop
        invariant
            s == text.spec_bytes(),
            ready(s, pos as int, stack@, task),
        decreases s.len() - task.position(),
    {
        let step = match task {
            Task::Value(p) => enter(text, pos, &mut stack, p),
            Task::Deliver(v, r) => feed(text, pos, &mut stack, v, r),
        };
        match step {
            Step::Next(next) => {
                task = next;
            },
            Step::Done(r) => {
                unwind(stack);
                return r;
            },
        }
    }
}

} // verus!
