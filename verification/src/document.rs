//! The sections of a replay document as values: parameters, world, initial
//! state, and the run that they describe.
use crate::decimal::{is_digit, number_of, parse_decimal};
use crate::geom::{Rect, RectV};
use crate::host::rects_view;
use crate::params::{default_params, name_of, param_name, Params, ParamsV, PARAM_COUNT};
use crate::replay::{closing_from, find, find_byte, find_byte_from, find_closing, find_from, inputs_of, parse_inputs, quote, quoted, section, section_bounds, Fault, ReplayError};
use crate::single::model::{val_of_int, Val};
use crate::single::repr::Single;
use crate::state::{State, StateV};
use crate::trace::{events_at, run, state_after, Frame};
use vstd::prelude::*;
use vstd::slice::slice_to_vec;
use vstd::string::StringSliceAdditionalSpecFns;
use vstd::utf8::encode_utf8;

verus! {

/// A fault and the key at which it was found.
pub struct FaultAt {
    pub fault: Fault,
    pub key: Seq<u8>,
}

impl View for ReplayError {
    type V = FaultAt;

    open spec fn view(&self) -> FaultAt {
        FaultAt { fault: self.fault, key: self.key@ }
    }
}

/// The bytes that a number is made of: digits, signs, the point, and the
/// letter of the exponent.
pub open spec fn is_number_byte(b: u8) -> bool {
    is_digit(b) || b == 0x2d || b == 0x2b || b == 0x2e || b == 0x65 || b == 0x45
}

/// The index of the first number byte from `i` on; the length if there is
/// none.
pub open spec fn token_start(s: Seq<u8>, i: int) -> int
    decreases s.len() - i,
{
    if i < 0 || i >= s.len() {
        s.len() as int
    } else if is_number_byte(s[i]) {
        i
    } else {
        token_start(s, i + 1)
    }
}

/// Where the run of number bytes ends that begins at `i`.
pub open spec fn token_end(s: Seq<u8>, i: int) -> int
    decreases s.len() - i,
{
    if 0 <= i < s.len() && is_number_byte(s[i]) {
        token_end(s, i + 1)
    } else {
        i
    }
}

/// The number under `key`: what the first run of number bytes writes that
/// follows the first colon after the quoted key. `None` if the key does not
/// occur.
#[verifier::opaque]
pub open spec fn number_at(src: Seq<u8>, key: Seq<u8>) -> Option<Result<Val, Fault>> {
    let k = quoted(key);
    match find_from(src, k, 0) {
        None => None,
        Some(ki) => Some(
            match find_byte_from(src, 0x3a, ki + k.len()) {
                None => Err(Fault::MissingColon),
                Some(ci) => {
                    let from = token_start(src, ci + 1);
                    let to = token_end(src, from);
                    match number_of(src.subrange(from, to)) {
                        Some(v) => Ok(v),
                        None => Err(Fault::InvalidNumber),
                    }
                },
            },
        ),
    }
}

/// The number under `key`, or `default` if the key does not occur; without a
/// default the key is missed.
pub open spec fn number_or(src: Seq<u8>, key: Seq<u8>, default: Option<Val>) -> Result<
    Val,
    FaultAt,
> {
    match number_at(src, key) {
        Some(Ok(v)) => Ok(v),
        Some(Err(fault)) => Err(FaultAt { fault, key }),
        None => match default {
            Some(v) => Ok(v),
            None => Err(FaultAt { fault: Fault::MissingKey, key }),
        },
    }
}

/// The whole number under `key`: the number, rounded to the nearest whole
/// number and brought into the range of `i32`.
pub open spec fn integer_or(src: Seq<u8>, key: Seq<u8>, default: Option<int>) -> Result<
    int,
    FaultAt,
> {
    let fallback = match default {
        Some(v) => Some(val_of_int(v)),
        None => None,
    };
    match number_or(src, key, fallback) {
        Ok(v) => Ok(v.round().to_i32()),
        Err(e) => Err(e),
    }
}

/// The default as a number of the model.
pub open spec fn default_val(default: Option<Single>) -> Option<Val> {
    match default {
        Some(d) => Some(d@),
        None => None,
    }
}

/// The default as an integer.
pub open spec fn default_int(default: Option<i32>) -> Option<int> {
    match default {
        Some(d) => Some(d as int),
        None => None,
    }
}

/// The number under `key`.
pub fn number(src: &[u8], key: &[u8], default: Option<Single>) -> (r: Result<Single, ReplayError>)
    ensures
        match r {
            Ok(v) => number_or(src@, key@, default_val(default)) == Ok::<Val, FaultAt>(v@),
            Err(e) => number_or(src@, key@, default_val(default)) == Err::<Val, FaultAt>(
                e@,
            ),
        },
{
    reveal(number_at);
    let n: usize = src.len();
    let k = quote(key);
    let found = find(src, k.as_slice(), 0);
    let ki: usize = match found {
        Some(ki) => ki,
        None => {
            return match default {
                Some(v) => Ok(v),
                None => Err(ReplayError { fault: Fault::MissingKey, key: slice_to_vec(key) }),
            };
        },
    };
    let colon = find_byte(src, 0x3a, ki + k.len());
    let ci: usize = match colon {
        Some(ci) => ci,
        None => {
            return Err(ReplayError { fault: Fault::MissingColon, key: slice_to_vec(key) });
        },
    };
    let mut from: usize = ci + 1;
    while from < n && !is_number(src[from])
        invariant
            n == src@.len(),
            ci < from <= n,
            token_start(src@, ci + 1) == token_start(src@, from as int),
        decreases n - from,
    {
        from = from + 1;
    }
    let mut to: usize = from;
    while to < n && is_number(src[to])
        invariant
            n == src@.len(),
            from <= to <= n,
            token_end(src@, from as int) == token_end(src@, to as int),
        decreases n - to,
    {
        to = to + 1;
    }
    match parse_decimal(&src[from..to]) {
        Some(v) => Ok(v),
        None => Err(ReplayError { fault: Fault::InvalidNumber, key: slice_to_vec(key) }),
    }
}

/// Whether the byte is one that a number is made of.
pub fn is_number(b: u8) -> (r: bool)
    ensures
        r == is_number_byte(b),
{
    (0x30 <= b && b <= 0x39) || b == 0x2d || b == 0x2b || b == 0x2e || b == 0x65 || b == 0x45
}

/// The whole number under `key`.
pub fn integer(src: &[u8], key: &[u8], default: Option<i32>) -> (r: Result<i32, ReplayError>)
    ensures
        match r {
            Ok(v) => integer_or(src@, key@, default_int(default)) == Ok::<int, FaultAt>(
                v as int,
            ),
            Err(e) => integer_or(src@, key@, default_int(default)) == Err::<
                int,
                FaultAt,
            >(e@),
        },
{
    let fallback = match default {
        Some(v) => Some(Single::from_i32(v)),
        None => None,
    };
    match number(src, key, fallback) {
        Ok(v) => Ok(v.round().to_i32()),
        Err(e) => Err(e),
    }
}

/// The rectangle that an object writes: its `x`, `y`, `w` and `h`, each of
/// which has to be there.
#[verifier::opaque]
pub open spec fn rect_of(obj: Seq<u8>) -> Result<RectV, FaultAt> {
    match number_or(obj, "x".spec_bytes(), None) {
        Err(e) => Err(e),
        Ok(x) => match number_or(obj, "y".spec_bytes(), None) {
            Err(e) => Err(e),
            Ok(y) => match number_or(obj, "w".spec_bytes(), None) {
                Err(e) => Err(e),
                Ok(w) => match number_or(obj, "h".spec_bytes(), None) {
                    Err(e) => Err(e),
                    Ok(h) => Ok(RectV { x, y, w, h }),
                },
            },
        },
    }
}

/// The rectangles of the objects in braces that follow one another in `arr`
/// from `i` on.
pub open spec fn rects_from(arr: Seq<u8>, i: int) -> Result<Seq<RectV>, FaultAt>
    decreases arr.len() - i + 1,
{
    match find_byte_from(arr, 0x7b, i) {
        None => Ok(Seq::<RectV>::empty()),
        Some(start) => match closing_from(arr, 0x7b, 0x7d, start, 0) {
            None => Err(FaultAt { fault: Fault::Unclosed, key: "world".spec_bytes() }),
            Some(end) => if !(i <= start < end < arr.len()) {
                Ok(Seq::<RectV>::empty())
            } else {
                match rect_of(arr.subrange(start + 1, end)) {
                    Err(e) => Err(e),
                    Ok(r) => match rects_from(arr, end + 1) {
                        Err(e) => Err(e),
                        Ok(rest) => Ok(seq![r] + rest),
                    },
                }
            },
        },
    }
}

/// What a section holds, or the fault met on the way to it.
pub open spec fn section_of(src: Seq<u8>, key: Seq<u8>, open: u8, close: u8) -> Result<
    Seq<u8>,
    FaultAt,
> {
    match section_bounds(src, key, open, close) {
        Ok((from, to)) => Ok(src.subrange(from, to)),
        Err(fault) => Err(FaultAt { fault, key }),
    }
}

/// The world of a document: the rectangles of its section `world`.
pub open spec fn world_of(src: Seq<u8>) -> Result<Seq<RectV>, FaultAt> {
    match section_of(src, "world".spec_bytes(), 0x5b, 0x5d) {
        Err(e) => Err(e),
        Ok(arr) => rects_from(arr, 0),
    }
}

/// The parameters from index `i` on, read from `obj` into `acc`: each is the
/// number under its name, or its default where the name does not occur.
pub open spec fn params_from(obj: Seq<u8>, i: int, acc: ParamsV) -> Result<ParamsV, FaultAt>
    decreases PARAM_COUNT - i,
{
    if i < 0 || i >= PARAM_COUNT {
        Ok(acc)
    } else {
        match number_or(obj, encode_utf8(name_of(i)), Some(default_params().get(i))) {
            Err(e) => Err(e),
            Ok(v) => params_from(obj, i + 1, acc.with(i, v)),
        }
    }
}

/// The parameters of a document: those of its section `params`, and the
/// defaults if it has no such section.
pub open spec fn params_of(src: Seq<u8>) -> Result<ParamsV, FaultAt> {
    match section_bounds(src, "params".spec_bytes(), 0x7b, 0x7d) {
        Err(Fault::MissingKey) => Ok(default_params()),
        Err(fault) => Err(FaultAt { fault, key: "params".spec_bytes() }),
        Ok((from, to)) => params_from(src.subrange(from, to), 0, default_params()),
    }
}

/// A flag as a byte: the whole number, wrapped into 0 to 255.
pub open spec fn flag_of(v: int) -> u8 {
    (v % 256) as u8
}

/// The state that an object writes: `x`, `y`, `w` and `h` have to be there;
/// the velocity, the timers and the two flags are 0 where they are not.
pub open spec fn state_of_object(obj: Seq<u8>) -> Result<StateV, FaultAt> {
    let zero = Some(Val::zero());
    match number_or(obj, "x".spec_bytes(), None) {
        Err(e) => Err(e),
        Ok(x) => match number_or(obj, "y".spec_bytes(), None) {
            Err(e) => Err(e),
            Ok(y) => match number_or(obj, "vx".spec_bytes(), zero) {
                Err(e) => Err(e),
                Ok(vx) => match number_or(obj, "vy".spec_bytes(), zero) {
                    Err(e) => Err(e),
                    Ok(vy) => match number_or(obj, "w".spec_bytes(), None) {
                        Err(e) => Err(e),
                        Ok(w) => match number_or(obj, "h".spec_bytes(), None) {
                            Err(e) => Err(e),
                            Ok(h) => state_of_object_rest(obj, x, y, vx, vy, w, h),
                        },
                    },
                },
            },
        },
    }
}

/// [`state_of_object`], from the flag `grounded` on.
pub open spec fn state_of_object_rest(
    obj: Seq<u8>,
    x: Val,
    y: Val,
    vx: Val,
    vy: Val,
    w: Val,
    h: Val,
) -> Result<StateV, FaultAt> {
    let zero = Some(Val::zero());
    match integer_or(obj, "grounded".spec_bytes(), Some(0)) {
        Err(e) => Err(e),
        Ok(grounded) => match number_or(obj, "coyote".spec_bytes(), zero) {
            Err(e) => Err(e),
            Ok(coyote) => match number_or(obj, "jump_buffer".spec_bytes(), zero) {
                Err(e) => Err(e),
                Ok(jump_buffer) => match integer_or(obj, "jump_was_down".spec_bytes(), Some(0)) {
                    Err(e) => Err(e),
                    Ok(down) => Ok(
                        StateV {
                            x,
                            y,
                            vx,
                            vy,
                            w,
                            h,
                            grounded: flag_of(grounded),
                            coyote,
                            jump_buffer,
                            jump_was_down: flag_of(down),
                        },
                    ),
                },
            },
        },
    }
}

/// The initial state of a document: that of its section `initial_state`.
pub open spec fn state_of(src: Seq<u8>) -> Result<StateV, FaultAt> {
    match section_of(src, "initial_state".spec_bytes(), 0x7b, 0x7d) {
        Err(e) => Err(e),
        Ok(obj) => state_of_object(obj),
    }
}

/// The rectangle that an object writes.
pub fn parse_rect(obj: &[u8]) -> (r: Result<Rect, ReplayError>)
    ensures
        match r {
            Ok(v) => rect_of(obj@) == Ok::<RectV, FaultAt>(v@),
            Err(e) => rect_of(obj@) == Err::<RectV, FaultAt>(e@),
        },
{
    reveal(rect_of);
    let x = match number(obj, "x".as_bytes(), None) {
        Ok(v) => v,
        Err(e) => {
            return Err(e);
        },
    };
    let y = match number(obj, "y".as_bytes(), None) {
        Ok(v) => v,
        Err(e) => {
            return Err(e);
        },
    };
    let w = match number(obj, "w".as_bytes(), None) {
        Ok(v) => v,
        Err(e) => {
            return Err(e);
        },
    };
    let h = match number(obj, "h".as_bytes(), None) {
        Ok(v) => v,
        Err(e) => {
            return Err(e);
        },
    };
    Ok(Rect { x, y, w, h })
}

/// The static rectangles of a document: the objects of its section `world`,
/// in their order.
pub fn parse_world(src: &[u8]) -> (r: Result<Vec<Rect>, ReplayError>)
    ensures
        match r {
            Ok(v) => world_of(src@) == Ok::<Seq<RectV>, FaultAt>(rects_view(v@)),
            Err(e) => world_of(src@) == Err::<Seq<RectV>, FaultAt>(e@),
        },
{
    match section(src, "world".as_bytes(), 0x5b, 0x5d) {
        Ok(arr) => parse_rects(arr),
        Err(e) => Err(e),
    }
}

/// The rectangles of the objects in braces that follow one another in `arr`.
pub fn parse_rects(arr: &[u8]) -> (r: Result<Vec<Rect>, ReplayError>)
    ensures
        match r {
            Ok(v) => rects_from(arr@, 0) == Ok::<Seq<RectV>, FaultAt>(rects_view(v@)),
            Err(e) => rects_from(arr@, 0) == Err::<Seq<RectV>, FaultAt>(e@),
        },
{
    let key = "world".as_bytes();
    let n: usize = arr.len();
    let mut out: Vec<Rect> = Vec::new();
    let mut i: usize = 0;
    proof {
        assert(rects_view(out@) =~= Seq::<RectV>::empty());
    }
    loop
        invariant
            n == arr@.len(),
            i <= n,
            key@ == "world".spec_bytes(),
            rects_from(arr@, 0) == match rects_from(arr@, i as int) {
                Ok(rest) => Ok::<Seq<RectV>, FaultAt>(rects_view(out@) + rest),
                Err(e) => Err(e),
            },
        decreases n - i + 1,
    {
        let opener = find_byte(arr, 0x7b, i);
        let start: usize = match opener {
            Some(start) => start,
            None => {
                assert(rects_view(out@) + Seq::<RectV>::empty() =~= rects_view(out@));
                return Ok(out);
            },
        };
        let closer = find_closing(arr, 0x7b, 0x7d, start);
        let end: usize = match closer {
            Some(end) => end,
            None => {
                return Err(ReplayError { fault: Fault::Unclosed, key: slice_to_vec(key) });
            },
        };
        let rect = match parse_rect(&arr[start + 1..end]) {
            Ok(rect) => rect,
            Err(e) => {
                return Err(e);
            },
        };
        let ghost before = rects_view(out@);
        out.push(rect);
        proof {
            assert(rects_view(out@) =~= before + seq![rect@]);
            match rects_from(arr@, end + 1) {
                Ok(rest) => {
                    assert(before + (seq![rect@] + rest) =~= rects_view(out@) + rest);
                },
                Err(_) => {},
            }
        }
        i = end + 1;
    }
}

/// The parameters of a document.
pub fn parse_params(src: &[u8]) -> (r: Result<Params, ReplayError>)
    ensures
        match r {
            Ok(v) => params_of(src@) == Ok::<ParamsV, FaultAt>(v@),
            Err(e) => params_of(src@) == Err::<ParamsV, FaultAt>(e@),
        },
{
    match section(src, "params".as_bytes(), 0x7b, 0x7d) {
        Ok(obj) => parse_params_object(obj),
        Err(e) => match e.fault {
            Fault::MissingKey => Ok(Params::default()),
            _ => Err(e),
        },
    }
}

/// The parameters that an object writes, each the default where its name
/// does not occur.
pub fn parse_params_object(obj: &[u8]) -> (r: Result<Params, ReplayError>)
    ensures
        match r {
            Ok(v) => params_from(obj@, 0, default_params()) == Ok::<ParamsV, FaultAt>(v@),
            Err(e) => params_from(obj@, 0, default_params()) == Err::<ParamsV, FaultAt>(e@),
        },
{
    let defaults = Params::default();
    let mut params = defaults;
    let mut i: usize = 0;
    while i < PARAM_COUNT
        invariant
            i <= PARAM_COUNT,
            defaults@ == default_params(),
            params_from(obj@, 0, default_params()) == params_from(obj@, i as int, params@),
        decreases PARAM_COUNT - i,
    {
        let v = match number(obj, param_name(i).as_bytes(), Some(defaults.get(i))) {
            Ok(v) => v,
            Err(e) => {
                return Err(e);
            },
        };
        params.set(i, v);
        i = i + 1;
    }
    Ok(params)
}

/// A whole number as a flag byte.
pub fn flag(v: i32) -> (r: u8)
    ensures
        r == flag_of(v as int),
{
    let shifted: i64 = v as i64 + 0x8000_0000;
    (shifted % 256) as u8
}

/// The initial state of a document.
pub fn parse_state(src: &[u8]) -> (r: Result<State, ReplayError>)
    ensures
        match r {
            Ok(v) => state_of(src@) == Ok::<StateV, FaultAt>(v@),
            Err(e) => state_of(src@) == Err::<StateV, FaultAt>(e@),
        },
{
    let obj = match section(src, "initial_state".as_bytes(), 0x7b, 0x7d) {
        Ok(obj) => obj,
        Err(e) => {
            return Err(e);
        },
    };
    let zero = Single::zero(false);
    let x = match number(obj, "x".as_bytes(), None) {
        Ok(v) => v,
        Err(e) => {
            return Err(e);
        },
    };
    let y = match number(obj, "y".as_bytes(), None) {
        Ok(v) => v,
        Err(e) => {
            return Err(e);
        },
    };
    let vx = match number(obj, "vx".as_bytes(), Some(zero)) {
        Ok(v) => v,
        Err(e) => {
            return Err(e);
        },
    };
    let vy = match number(obj, "vy".as_bytes(), Some(zero)) {
        Ok(v) => v,
        Err(e) => {
            return Err(e);
        },
    };
    let w = match number(obj, "w".as_bytes(), None) {
        Ok(v) => v,
        Err(e) => {
            return Err(e);
        },
    };
    let h = match number(obj, "h".as_bytes(), None) {
        Ok(v) => v,
        Err(e) => {
            return Err(e);
        },
    };
    let grounded = match integer(obj, "grounded".as_bytes(), Some(0)) {
        Ok(v) => v,
        Err(e) => {
            return Err(e);
        },
    };
    let coyote = match number(obj, "coyote".as_bytes(), Some(zero)) {
        Ok(v) => v,
        Err(e) => {
            return Err(e);
        },
    };
    let jump_buffer = match number(obj, "jump_buffer".as_bytes(), Some(zero)) {
        Ok(v) => v,
        Err(e) => {
            return Err(e);
        },
    };
    let down = match integer(obj, "jump_was_down".as_bytes(), Some(0)) {
        Ok(v) => v,
        Err(e) => {
            return Err(e);
        },
    };
    Ok(
        State {
            x,
            y,
            vx,
            vy,
            w,
            h,
            grounded: flag(grounded),
            coyote,
            jump_buffer,
            jump_was_down: flag(down),
        },
    )
}

/// What a replay document describes: how the actor moves, among what, from
/// where, and the buttons of every tick.
pub struct Replay {
    pub params: Params,
    pub world: Vec<Rect>,
    pub state: State,
    pub inputs: Vec<u8>,
}

/// A replay as values of the model.
pub struct ReplayV {
    pub params: ParamsV,
    pub world: Seq<RectV>,
    pub state: StateV,
    pub inputs: Seq<u8>,
}

impl View for Replay {
    type V = ReplayV;

    open spec fn view(&self) -> ReplayV {
        ReplayV {
            params: self.params@,
            world: rects_view(self.world@),
            state: self.state@,
            inputs: self.inputs@,
        }
    }
}

/// The replay that a document describes. Its sections are read in the order
/// `params`, `world`, `initial_state`, `inputs`, and the first fault ends the
/// reading.
pub open spec fn replay_of(src: Seq<u8>) -> Result<ReplayV, FaultAt> {
    match params_of(src) {
        Err(e) => Err(e),
        Ok(params) => match world_of(src) {
            Err(e) => Err(e),
            Ok(world) => match state_of(src) {
                Err(e) => Err(e),
                Ok(state) => match inputs_of(src) {
                    Err(fault) => Err(FaultAt { fault, key: "inputs".spec_bytes() }),
                    Ok(inputs) => Ok(ReplayV { params, world, state, inputs }),
                },
            },
        },
    }
}

/// Reads a replay document.
pub fn parse_replay(src: &[u8]) -> (r: Result<Replay, ReplayError>)
    ensures
        match r {
            Ok(v) => replay_of(src@) == Ok::<ReplayV, FaultAt>(v@),
            Err(e) => replay_of(src@) == Err::<ReplayV, FaultAt>(e@),
        },
{
    let params = match parse_params(src) {
        Ok(v) => v,
        Err(e) => {
            return Err(e);
        },
    };
    let world = match parse_world(src) {
        Ok(v) => v,
        Err(e) => {
            return Err(e);
        },
    };
    let state = match parse_state(src) {
        Ok(v) => v,
        Err(e) => {
            return Err(e);
        },
    };
    let inputs = match parse_inputs(src) {
        Ok(v) => v,
        Err(e) => {
            return Err(e);
        },
    };
    Ok(Replay { params, world, state, inputs })
}

/// Replays a document: reads it and steps the actor once per entry of its
/// inputs, from its initial state. Returns the state after every tick with
/// the events of that tick.
pub fn replay(src: &[u8]) -> (r: Result<Vec<Frame>, ReplayError>)
    ensures
        match r {
            Ok(frames) => match replay_of(src@) {
                Ok(doc) => {
                    &&& frames@.len() == doc.inputs.len()
                    &&& forall|i: int|
                        0 <= i < frames@.len() ==> (#[trigger] frames@[i]).state@ == state_after(
                            doc.params,
                            doc.world,
                            doc.state,
                            doc.inputs,
                            i + 1,
                        )
                    &&& forall|i: int|
                        0 <= i < frames@.len() ==> (#[trigger] frames@[i]).events == events_at(
                            doc.params,
                            doc.world,
                            doc.state,
                            doc.inputs,
                            i,
                        )
                },
                Err(_) => false,
            },
            Err(e) => replay_of(src@) == Err::<ReplayV, FaultAt>(e@),
        },
{
    match parse_replay(src) {
        Ok(doc) => {
            let mut state = doc.state;
            let world = doc.world.as_slice();
            assert(world.deep_view() =~= rects_view(world@));
            Ok(run(&doc.params, world, &mut state, doc.inputs.as_slice()))
        },
        Err(e) => Err(e),
    }
}

} // verus!
