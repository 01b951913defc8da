//! GENLIB side of the conversion: pin phases, the rewriting of Liberty
//! boolean functions into GENLIB syntax, and which cells become gates.
use vstd::prelude::*;
use vstd::string::StringSliceAdditionalSpecFns;
use crate::scan::is_alnum;
use crate::scan::matches_at;
use crate::scan::find_exact;
use crate::scan::lemma_find_exact;
use crate::scan::find_exact_from;
use crate::scan::byte_is_alnum;
use crate::text::chars_of;
use crate::text::chars_eq;
use crate::text::copy_range;
use crate::text::string_from_chars;
use crate::text::trim_ws;
use crate::text::trim_ws_chars;
use crate::liberty::CellText;
use crate::liberty::CellModel;
use crate::liberty::PinText;
use crate::liberty::PinModel;
use crate::liberty::TimingText;
use crate::liberty::pins_view;
use crate::liberty::timings_view;
use vstd::utf8::encode_utf8;

verus! {

pub const BANG: u8 = 0x21;
pub const TILDE: u8 = 0x7E;
pub const APOSTROPHE: u8 = 0x27;
pub const AMPERSAND: u8 = 0x26;
pub const PIPE: u8 = 0x7C;
pub const SPACE: u8 = 0x20;

// ---------------------------------------------------------------------------
// Phase from a timing sense
// ---------------------------------------------------------------------------

/// The GENLIB phase named by a Liberty `timing_sense`.
pub open spec fn sense_phase(sense: Seq<char>) -> Seq<char> {
    if sense == "positive_unate"@ {
        "NONINV"@
    } else if sense == "negative_unate"@ {
        "INV"@
    } else {
        "UNKNOWN"@
    }
}

/// `positive_unate` gives `NONINV`, `negative_unate` gives `INV`, anything
/// else `UNKNOWN`.
pub fn infer_phase_from_sense(sense: &str) -> (r: &'static str)
    ensures
        r@ == sense_phase(sense@),
{
    let s = chars_of(sense);
    let pos: [char; 14] = ['p', 'o', 's', 'i', 't', 'i', 'v', 'e', '_', 'u', 'n', 'a', 't', 'e'];
    let neg: [char; 14] = ['n', 'e', 'g', 'a', 't', 'i', 'v', 'e', '_', 'u', 'n', 'a', 't', 'e'];
    proof {
        reveal_strlit("positive_unate");
        reveal_strlit("negative_unate");
        assert(pos@ =~= "positive_unate"@);
        assert(neg@ =~= "negative_unate"@);
    }
    if chars_eq(s.as_slice(), pos.as_slice()) {
        "NONINV"
    } else if chars_eq(s.as_slice(), neg.as_slice()) {
        "INV"
    } else {
        "UNKNOWN"
    }
}

// ---------------------------------------------------------------------------
// Phase from a boolean function
// ---------------------------------------------------------------------------

/// `s` with every space byte removed.
pub open spec fn drop_spaces(s: Seq<u8>) -> Seq<u8>
    decreases s.len(),
{
    if s.len() == 0 {
        Seq::empty()
    } else if s.last() == SPACE {
        drop_spaces(s.drop_last())
    } else {
        drop_spaces(s.drop_last()).push(s.last())
    }
}

/// `needle` occurs somewhere in `hay`.
pub open spec fn contains_seq(hay: Seq<u8>, needle: Seq<u8>) -> bool {
    exists|i: int| matches_at(hay, needle, i)
}

/// A UTF-8 byte that continues a character.
pub open spec fn is_continuation(b: u8) -> bool {
    0x80u8 <= b < 0xC0u8
}

/// `i` is a character boundary of the UTF-8 text `f`.
pub open spec fn is_boundary(f: Seq<u8>, i: int) -> bool {
    0 <= i <= f.len() && (i == f.len() || !is_continuation(f[i]))
}

/// The occurrence of `pin` at `i` in `f` stands alone: it is not preceded by
/// an alphanumeric byte or a negation (`!`, `~`) and not followed by an
/// alphanumeric byte or a postfix negation (`'`).
pub open spec fn stands_alone(f: Seq<u8>, pin: Seq<u8>, i: int) -> bool {
    let after = i + pin.len();
    &&& (i == 0 || (!is_alnum(f[i - 1]) && f[i - 1] != BANG && f[i - 1] != TILDE))
    &&& (after >= f.len() || (!is_alnum(f[after]) && f[after] != APOSTROPHE))
}

/// Among the non-overlapping occurrences of the non-empty `pin` in `f` that
/// `str::match_indices` lists from `from` on, one stands alone.
pub open spec fn alone_from(f: Seq<u8>, pin: Seq<u8>, from: int) -> bool
    decreases f.len() - from,
{
    if pin.len() == 0 || from < 0 {
        false
    } else {
        match find_exact(f, pin, from) {
            None => false,
            Some(i) => {
                proof {
                    lemma_find_exact(f, pin, from);
                }
                stands_alone(f, pin, i) || alone_from(f, pin, i + pin.len())
            },
        }
    }
}

/// The function uses `pin` un-negated: one of the places that
/// `str::match_indices` gives for `pin` (every character boundary when
/// `pin` is empty) stands alone.
pub open spec fn uses_plain(f: Seq<u8>, pin: Seq<u8>) -> bool {
    if pin.len() == 0 {
        exists|i: int| is_boundary(f, i) && stands_alone(f, pin, i)
    } else {
        alone_from(f, pin, 0)
    }
}

/// The function uses `pin` negated: as `!pin`, `~pin` or `pin'`.
pub open spec fn uses_negated(f: Seq<u8>, pin: Seq<u8>) -> bool {
    ||| contains_seq(f, seq![BANG] + pin)
    ||| contains_seq(f, seq![TILDE] + pin)
    ||| contains_seq(f, pin.push(APOSTROPHE))
}

/// The phase of input `pin` in the boolean function `function` (both as
/// UTF-8 bytes), spaces ignored: `INV` when it is only used negated,
/// `NONINV` when it is only used plainly, `UNKNOWN` otherwise.
pub open spec fn function_phase(function: Seq<u8>, pin: Seq<u8>) -> Seq<char> {
    let f = drop_spaces(function);
    let inv = uses_negated(f, pin);
    let plain = uses_plain(f, pin);
    if inv && !plain {
        "INV"@
    } else if plain && !inv {
        "NONINV"@
    } else {
        "UNKNOWN"@
    }
}

fn bytes_without_spaces(s: &[u8]) -> (r: Vec<u8>)
    ensures
        r@ == drop_spaces(s@),
{
    let mut r: Vec<u8> = Vec::new();
    let mut i: usize = 0;
    while i < s.len()
        invariant
            i <= s@.len(),
            r@ == drop_spaces(s@.take(i as int)),
        decreases s@.len() - i,
    {
        assert(s@.take(i + 1).drop_last() =~= s@.take(i as int));
        if s[i] != SPACE {
            r.push(s[i]);
        }
        i = i + 1;
    }
    assert(s@.take(s@.len() as int) =~= s@);
    r
}

fn contains_bytes(hay: &[u8], needle: &[u8]) -> (r: bool)
    requires
        needle@.len() > 0,
    ensures
        r == contains_seq(hay@, needle@),
{
    proof {
        lemma_find_exact(hay@, needle@, 0);
    }
    match find_exact_from(hay, needle, 0) {
        Some(_) => true,
        None => false,
    }
}

fn stands_alone_exec(f: &[u8], pin: &[u8], i: usize) -> (r: bool)
    requires
        i <= f@.len(),
    ensures
        r == stands_alone(f@, pin@, i as int),
{
    let pin_len = pin.len();
    let before_ok = i == 0 || (!byte_is_alnum(f[i - 1]) && f[i - 1] != BANG && f[i - 1] != TILDE);
    let after_ok = if pin_len >= f.len() - i {
        true
    } else {
        let after = i + pin_len;
        !byte_is_alnum(f[after]) && f[after] != APOSTROPHE
    };
    before_ok && after_ok
}

/// Whether the input pin is used plainly (see [`uses_plain`]).
fn plain_use(f: &[u8], pin: &[u8]) -> (r: bool)
    ensures
        r == uses_plain(f@, pin@),
{
    let n = pin.len();
    if n == 0 {
        let mut i: usize = 0;
        while i < f.len()
            invariant
                n == 0,
                n == pin@.len(),
                i <= f@.len(),
                forall|j: int| 0 <= j < i ==> !(is_boundary(f@, j) && stands_alone(f@, pin@, j)),
            decreases f@.len() - i,
        {
            let boundary = !(0x80 <= f[i] && f[i] < 0xC0);
            if boundary && stands_alone_exec(f, pin, i) {
                assert(is_boundary(f@, i as int) && stands_alone(f@, pin@, i as int));
                return true;
            }
            i = i + 1;
        }
        if stands_alone_exec(f, pin, i) {
            assert(is_boundary(f@, i as int) && stands_alone(f@, pin@, i as int));
            return true;
        }
        assert forall|j: int| is_boundary(f@, j) implies !stands_alone(f@, pin@, j) by {
            if j < i {
            }
        }
        return false;
    }
    let mut from: usize = 0;
    while from <= f.len()
        invariant
            n == pin@.len(),
            n > 0,
            uses_plain(f@, pin@) == alone_from(f@, pin@, from as int),
        decreases f@.len() + 1 - from,
    {
        proof {
            lemma_find_exact(f@, pin@, from as int);
        }
        match find_exact_from(f, pin, from) {
            None => {
                return false;
            },
            Some(i) => {
                if stands_alone_exec(f, pin, i) {
                    return true;
                }
                from = i + n;
            },
        }
    }
    proof {
        lemma_find_exact(f@, pin@, from as int);
    }
    false
}

/// The phase of `input_pin` in `function` (see [`function_phase`]).
pub fn infer_phase_from_function(function: &str, input_pin: &str) -> (r: &'static str)
    ensures
        r@ == function_phase(function.spec_bytes(), input_pin.spec_bytes()),
{
    let f = bytes_without_spaces(function.as_bytes());
    let pin = input_pin.as_bytes();
    let mut bang_pin: Vec<u8> = Vec::new();
    bang_pin.push(BANG);
    let mut tilde_pin: Vec<u8> = Vec::new();
    tilde_pin.push(TILDE);
    let mut pin_prime: Vec<u8> = Vec::new();
    let mut k: usize = 0;
    while k < pin.len()
        invariant
            k <= pin@.len(),
            bang_pin@ == seq![BANG] + pin@.take(k as int),
            tilde_pin@ == seq![TILDE] + pin@.take(k as int),
            pin_prime@ == pin@.take(k as int),
        decreases pin@.len() - k,
    {
        bang_pin.push(pin[k]);
        tilde_pin.push(pin[k]);
        pin_prime.push(pin[k]);
        assert(pin@.take(k + 1) =~= pin@.take(k as int).push(pin@[k as int]));
        k = k + 1;
    }
    pin_prime.push(APOSTROPHE);
    assert(pin@.take(pin@.len() as int) =~= pin@);
    let has_inv = contains_bytes(f.as_slice(), bang_pin.as_slice()) || contains_bytes(
        f.as_slice(),
        tilde_pin.as_slice(),
    ) || contains_bytes(f.as_slice(), pin_prime.as_slice());
    let has_noninv = plain_use(f.as_slice(), pin);
    if has_inv && !has_noninv {
        "INV"
    } else if has_noninv && !has_inv {
        "NONINV"
    } else {
        "UNKNOWN"
    }
}

// ---------------------------------------------------------------------------
// Function syntax
// ---------------------------------------------------------------------------

/// A character that may form an identifier: ASCII alphanumeric or `_`.
pub open spec fn is_ident_char(c: char) -> bool {
    ('0' <= c <= '9') || ('A' <= c <= 'Z') || ('a' <= c <= 'z') || c == '_'
}

/// Where the identifier that ends `s` starts (`s.len()` when `s` does not end
/// with an identifier character).
pub open spec fn ident_start(s: Seq<char>) -> int
    decreases s.len(),
{
    if s.len() > 0 && is_ident_char(s.last()) {
        ident_start(s.drop_last())
    } else {
        s.len() as int
    }
}

pub proof fn lemma_ident_start(s: Seq<char>)
    ensures
        0 <= ident_start(s) <= s.len(),
        forall|k: int| ident_start(s) <= k < s.len() ==> is_ident_char(#[trigger] s[k]),
        ident_start(s) > 0 ==> !is_ident_char(s[ident_start(s) - 1]),
    decreases s.len(),
{
    if s.len() > 0 && is_ident_char(s.last()) {
        lemma_ident_start(s.drop_last());
        assert forall|k: int| ident_start(s) <= k < s.len() implies is_ident_char(
            #[trigger] s[k],
        ) by {
            if k < s.len() - 1 {
                assert(s[k] == s.drop_last()[k]);
            }
        }
    }
}

/// GENLIB spelling of one more byte `b` of a Liberty function, given the
/// text `out` written so far: `~` becomes `!`, `&` becomes `*`, `|` becomes
/// `+`, a postfix `'` turns into a `!` before the identifier it follows (and
/// is dropped when it follows none), and any other byte is kept as the
/// character with that code.
pub open spec fn normalize_step(out: Seq<char>, b: u8) -> Seq<char> {
    if b == TILDE {
        out.push('!')
    } else if b == AMPERSAND {
        out.push('*')
    } else if b == PIPE {
        out.push('+')
    } else if b == APOSTROPHE {
        let s = ident_start(out);
        if s < out.len() {
            out.take(s).push('!') + out.skip(s)
        } else {
            out
        }
    } else {
        out.push(b as char)
    }
}

/// The GENLIB spelling of the Liberty function with UTF-8 bytes `f`.
pub open spec fn normalized(f: Seq<u8>) -> Seq<char>
    decreases f.len(),
{
    if f.len() == 0 {
        Seq::empty()
    } else {
        normalize_step(normalized(f.drop_last()), f.last())
    }
}

/// Rewrites a Liberty boolean function into GENLIB syntax (see
/// [`normalize_step`]). The constant spellings `1'b0` and `1'b1` cannot
/// reach the result, since every `'` is consumed by the postfix rule.
pub fn normalize_function(func: &str) -> (r: String)
    ensures
        r@ == normalized(func.spec_bytes()),
{
    let bytes = func.as_bytes();
    let mut out: Vec<char> = Vec::new();
    let mut i: usize = 0;
    while i < bytes.len()
        invariant
            i <= bytes@.len(),
            out@ == normalized(bytes@.take(i as int)),
        decreases bytes@.len() - i,
    {
        let b = bytes[i];
        assert(bytes@.take(i + 1).drop_last() =~= bytes@.take(i as int));
        if b == TILDE {
            out.push('!');
        } else if b == AMPERSAND {
            out.push('*');
        } else if b == PIPE {
            out.push('+');
        } else if b == APOSTROPHE {
            proof {
                lemma_ident_start(out@);
            }
            let end = out.len();
            let mut start = end;
            assert(out@.take(end as int) =~= out@);
            while start > 0 && is_ident_char_exec(out[start - 1])
                invariant
                    end == out@.len(),
                    start <= end,
                    ident_start(out@) == ident_start(out@.take(start as int)),
                decreases start,
            {
                assert(out@.take(start as int).drop_last() =~= out@.take(start - 1));
                start = start - 1;
            }
            if start < end {
                let mut next = copy_range(out.as_slice(), 0, start);
                next.push('!');
                let mut k = start;
                while k < end
                    invariant
                        start <= k <= end,
                        end == out@.len(),
                        next@ == out@.take(start as int).push('!') + out@.subrange(
                            start as int,
                            k as int,
                        ),
                    decreases end - k,
                {
                    next.push(out[k]);
                    k = k + 1;
                }
                assert(out@.subrange(start as int, end as int) =~= out@.skip(start as int));
                out = next;
            }
        } else {
            out.push(b as char);
        }
        i = i + 1;
    }
    assert(bytes@.take(bytes@.len() as int) =~= bytes@);
    string_from_chars(out.as_slice())
}

fn is_ident_char_exec(c: char) -> (r: bool)
    ensures
        r == is_ident_char(c),
{
    ('0' <= c && c <= '9') || ('A' <= c && c <= 'Z') || ('a' <= c && c <= 'z') || c == '_'
}

// ---------------------------------------------------------------------------
// Which cells become gates
// ---------------------------------------------------------------------------

/// Why a cell does not become a GENLIB gate.
#[derive(Clone, Copy, Debug, PartialEq, Eq, Structural)]
pub enum SkipReason {
    DontUse,
    DontTouch,
    Sequential,
    TristateOnly,
    OutputNoFunction,
    InoutOnly,
    NoOutputPin,
    NoInputPin,
    MultiOutput,
}

/// The name under which a skip reason is reported.
pub open spec fn reason_text(r: SkipReason) -> Seq<char> {
    match r {
        SkipReason::DontUse => "dont_use"@,
        SkipReason::DontTouch => "dont_touch"@,
        SkipReason::Sequential => "sequential"@,
        SkipReason::TristateOnly => "tristate_only"@,
        SkipReason::OutputNoFunction => "output_no_function"@,
        SkipReason::InoutOnly => "inout_only"@,
        SkipReason::NoOutputPin => "no_output_pin"@,
        SkipReason::NoInputPin => "no_input_pin"@,
        SkipReason::MultiOutput => "multi_output"@,
    }
}

impl SkipReason {
    /// The name under which this reason is reported.
    pub fn as_str(&self) -> (r: &'static str)
        ensures
            r@ == reason_text(*self),
    {
        match self {
            SkipReason::DontUse => "dont_use",
            SkipReason::DontTouch => "dont_touch",
            SkipReason::Sequential => "sequential",
            SkipReason::TristateOnly => "tristate_only",
            SkipReason::OutputNoFunction => "output_no_function",
            SkipReason::InoutOnly => "inout_only",
            SkipReason::NoOutputPin => "no_output_pin",
            SkipReason::NoInputPin => "no_input_pin",
            SkipReason::MultiOutput => "multi_output",
        }
    }
}

/// An output pin with a function and no three-state condition: the pins a
/// gate can be made of.
pub open spec fn is_functional_output(p: PinModel) -> bool {
    p.direction == "output"@ && p.function.len() > 0 && p.three_state.len() == 0
}

/// An input pin.
pub open spec fn is_input(p: PinModel) -> bool {
    p.direction == "input"@
}

/// The indices of the functional outputs among `pins`, in order.
pub open spec fn functional_outputs(pins: Seq<PinModel>) -> Seq<int>
    decreases pins.len(),
{
    if pins.len() == 0 {
        Seq::empty()
    } else {
        let r = functional_outputs(pins.drop_last());
        if is_functional_output(pins.last()) {
            r.push(pins.len() - 1)
        } else {
            r
        }
    }
}

/// The indices of the inputs among `pins`, in order.
pub open spec fn inputs_of(pins: Seq<PinModel>) -> Seq<int>
    decreases pins.len(),
{
    if pins.len() == 0 {
        Seq::empty()
    } else {
        let r = inputs_of(pins.drop_last());
        if is_input(pins.last()) {
            r.push(pins.len() - 1)
        } else {
            r
        }
    }
}

/// A function text that spells a constant: `0`, `1`, `1'b0` or `1'b1`.
pub open spec fn is_constant_text(t: Seq<char>) -> bool {
    t == "0"@ || t == "1"@ || t == "1'b0"@ || t == "1'b1"@
}

/// Some pin has the given direction.
pub open spec fn has_direction(pins: Seq<PinModel>, d: Seq<char>) -> bool {
    exists|k: int| 0 <= k < pins.len() && pins[k].direction == d
}

/// Some output pin has a three-state condition.
pub open spec fn has_tristate_output(pins: Seq<PinModel>) -> bool {
    exists|k: int| 0 <= k < pins.len() && pins[k].direction == "output"@ && pins[k].three_state.len() > 0
}

/// Whether a cell becomes a gate, and if so which pin is its output and
/// which are its inputs; the checks come in this order: `dont_use`,
/// `dont_touch`, sequential, only three-state outputs, no functional output
/// (reported by what the cell has instead), no input and no constant
/// output, more than one functional output.
pub open spec fn gate_decision(c: CellModel) -> Result<(int, Seq<int>), SkipReason> {
    let outs = functional_outputs(c.pins);
    let ins = inputs_of(c.pins);
    if c.dont_use {
        Err(SkipReason::DontUse)
    } else if c.dont_touch {
        Err(SkipReason::DontTouch)
    } else if c.is_sequential {
        Err(SkipReason::Sequential)
    } else if outs.len() == 0 && has_tristate_output(c.pins) {
        Err(SkipReason::TristateOnly)
    } else if outs.len() == 0 {
        if has_direction(c.pins, "output"@) {
            Err(SkipReason::OutputNoFunction)
        } else if has_direction(c.pins, "inout"@) {
            Err(SkipReason::InoutOnly)
        } else {
            Err(SkipReason::NoOutputPin)
        }
    } else if ins.len() == 0 && !(exists|k: int|
        0 <= k < outs.len() && is_constant_text(trim_ws(c.pins[outs[k]].function))) {
        Err(SkipReason::NoInputPin)
    } else if outs.len() > 1 {
        Err(SkipReason::MultiOutput)
    } else {
        Ok((outs[0], ins))
    }
}

/// The indices of the timing arcs of `out` that relate to the pin `name`
/// (a non-empty name), in order.
pub open spec fn related_arcs(arcs: Seq<crate::liberty::TimingModel>, name: Seq<char>) -> Seq<int>
    decreases arcs.len(),
{
    if arcs.len() == 0 {
        Seq::empty()
    } else {
        let r = related_arcs(arcs.drop_last(), name);
        if name.len() > 0 && arcs.last().related_pin == name {
            r.push(arcs.len() - 1)
        } else {
            r
        }
    }
}

/// The first non-empty timing sense among the arcs with the given indices,
/// or the empty text.
pub open spec fn first_sense(arcs: Seq<crate::liberty::TimingModel>, idx: Seq<int>) -> Seq<char>
    decreases idx.len(),
{
    if idx.len() == 0 {
        Seq::empty()
    } else if arcs[idx[0]].timing_sense.len() > 0 {
        arcs[idx[0]].timing_sense
    } else {
        first_sense(arcs, idx.drop_first())
    }
}

/// The phase of input `ip` of a gate with output `out`: from the first
/// timing sense of the arcs that relate to it, else from the output's
/// function.
pub open spec fn input_phase(out: PinModel, ip: PinModel) -> Seq<char> {
    let sense = first_sense(out.timing, related_arcs(out.timing, ip.name));
    if sense.len() > 0 {
        sense_phase(sense)
    } else {
        function_phase(encode_utf8(out.function), encode_utf8(ip.name))
    }
}

/// One input of a gate: its pin, the arcs of the output that relate to it
/// (whose delays are its own; without any, the worst delays of the output apply),
/// and its phase.
#[derive(Clone, Debug)]
pub struct InputPlan {
    pub pin: usize,
    pub arcs: Vec<usize>,
    pub phase: &'static str,
}

/// A gate: its output pin, its function in GENLIB syntax, and its inputs.
#[derive(Clone, Debug)]
pub struct GatePlan {
    pub output: usize,
    pub function: String,
    pub inputs: Vec<InputPlan>,
}

pub open spec fn indices_view(v: Seq<usize>) -> Seq<int> {
    v.map_values(|i: usize| i as int)
}

/// The plan of input `i` of a gate with output `o` among `pins`.
pub open spec fn input_plan(pins: Seq<PinModel>, o: int, i: int) -> (int, Seq<int>, Seq<char>) {
    (i, related_arcs(pins[o].timing, pins[i].name), input_phase(pins[o], pins[i]))
}

impl View for InputPlan {
    type V = (int, Seq<int>, Seq<char>);

    open spec fn view(&self) -> (int, Seq<int>, Seq<char>) {
        (self.pin as int, indices_view(self.arcs@), self.phase@)
    }
}

pub open spec fn plans_view(v: Seq<InputPlan>) -> Seq<(int, Seq<int>, Seq<char>)> {
    v.map_values(|p: InputPlan| p@)
}

/// Whether `s` reads `lit`.
fn text_is(s: &String, lit: &[char]) -> (r: bool)
    ensures
        r == (s@ == lit@),
{
    let c = chars_of(s.as_str());
    chars_eq(c.as_slice(), lit)
}

/// Whether a function text, trimmed, spells a constant; `Some(false)` for
/// `0` and `1'b0`, `Some(true)` for `1` and `1'b1`.
pub open spec fn constant_level_of(f: Seq<char>) -> Option<bool> {
    let t = trim_ws(f);
    if t == "0"@ || t == "1'b0"@ {
        Some(false)
    } else if t == "1"@ || t == "1'b1"@ {
        Some(true)
    } else {
        None
    }
}

/// The constant that a function text spells, if any (see
/// [`constant_level_of`]).
pub fn constant_level(function: &str) -> (r: Option<bool>)
    ensures
        r == constant_level_of(function@),
{
    let c = chars_of(function);
    let t = trim_ws_chars(c.as_slice());
    let zero: [char; 1] = ['0'];
    let one: [char; 1] = ['1'];
    let b0: [char; 4] = ['1', '\'', 'b', '0'];
    let b1: [char; 4] = ['1', '\'', 'b', '1'];
    proof {
        reveal_strlit("0");
        reveal_strlit("1");
        reveal_strlit("1'b0");
        reveal_strlit("1'b1");
        assert(zero@ =~= "0"@);
        assert(one@ =~= "1"@);
        assert(b0@ =~= "1'b0"@);
        assert(b1@ =~= "1'b1"@);
    }
    if chars_eq(t.as_slice(), zero.as_slice()) || chars_eq(t.as_slice(), b0.as_slice()) {
        Some(false)
    } else if chars_eq(t.as_slice(), one.as_slice()) || chars_eq(t.as_slice(), b1.as_slice()) {
        Some(true)
    } else {
        None
    }
}

/// Some output pin (by direction) of the cell spells the constant `level`.
pub open spec fn drives_constant(c: CellModel, level: bool) -> bool {
    exists|k: int|
        0 <= k < c.pins.len() && c.pins[k].direction == "output"@ && constant_level_of(
            c.pins[k].function,
        ) == Some(level)
}

/// Whether the output pins of a cell spell the constants 0 and 1.
pub fn output_constants(cell: &CellText) -> (r: (bool, bool))
    ensures
        r.0 == drives_constant(cell@, false),
        r.1 == drives_constant(cell@, true),
{
    let output: [char; 6] = ['o', 'u', 't', 'p', 'u', 't'];
    proof {
        reveal_strlit("output");
        assert(output@ =~= "output"@);
    }
    let mut zero = false;
    let mut one = false;
    let mut k: usize = 0;
    while k < cell.pins.len()
        invariant
            k <= cell.pins@.len(),
            output@ == "output"@,
            zero == exists|j: int|
                0 <= j < k && cell@.pins[j].direction == "output"@ && constant_level_of(
                    cell@.pins[j].function,
                ) == Some(false),
            one == exists|j: int|
                0 <= j < k && cell@.pins[j].direction == "output"@ && constant_level_of(
                    cell@.pins[j].function,
                ) == Some(true),
        decreases cell.pins@.len() - k,
    {
        let p = &cell.pins[k];
        assert(cell@.pins[k as int] == p@);
        if text_is(&p.direction, output.as_slice()) {
            match constant_level(p.function.as_str()) {
                Some(false) => {
                    zero = true;
                },
                Some(true) => {
                    one = true;
                },
                None => {},
            }
        }
        k = k + 1;
    }
    (zero, one)
}

/// The function that the output `out` of a gate computes, in GENLIB syntax.
pub open spec fn gate_function(out: PinModel) -> Seq<char> {
    normalized(encode_utf8(out.function))
}

/// What `cell_to_genlib` decides of a cell: why it is skipped, or its gate
/// (output pin, function, and for each input its arcs and phase). The
/// numbers of a gate are read by the caller.
pub open spec fn plan_matches(c: CellModel, r: Result<GatePlan, SkipReason>) -> bool {
    match r {
        Err(e) => gate_decision(c) == Err::<(int, Seq<int>), SkipReason>(e),
        Ok(p) => match gate_decision(c) {
            Ok((o, ins)) => {
                &&& p.output == o
                &&& p.function@ == gate_function(c.pins[o])
                &&& plans_view(p.inputs@) == ins.map_values(|i: int| input_plan(c.pins, o, i))
            },
            Err(_) => false,
        },
    }
}

proof fn lemma_take_last<T>(s: Seq<T>, k: int)
    requires
        0 <= k < s.len(),
    ensures
        s.take(k + 1).drop_last() == s.take(k),
        s.take(k + 1).last() == s[k],
        s.take(k + 1).len() == k + 1,
{
    assert(s.take(k + 1).drop_last() =~= s.take(k));
}

fn related_arc_indices(arcs: &Vec<TimingText>, name: &String) -> (r: Vec<usize>)
    ensures
        indices_view(r@) == related_arcs(timings_view(arcs@), name@),
{
    let ghost all = timings_view(arcs@);
    let name_empty = name.as_str().is_empty();
    let name_chars = chars_of(name.as_str());
    let mut r: Vec<usize> = Vec::new();
    let mut k: usize = 0;
    assert(all.take(0) =~= Seq::<crate::liberty::TimingModel>::empty());
    while k < arcs.len()
        invariant
            k <= arcs@.len(),
            all == timings_view(arcs@),
            name_chars@ == name@,
            name_empty == (name@.len() == 0),
            indices_view(r@) == related_arcs(all.take(k as int), name@),
        decreases arcs@.len() - k,
    {
        proof {
            lemma_take_last(all, k as int);
        }
        assert(all[k as int] == arcs@[k as int]@);
        let related = chars_of(arcs[k].related_pin.as_str());
        if !name_empty && chars_eq(related.as_slice(), name_chars.as_slice()) {
            let ghost before = indices_view(r@);
            r.push(k);
            assert(indices_view(r@) =~= before.push(k as int));
        }
        k = k + 1;
    }
    assert(all.take(arcs@.len() as int) =~= all);
    r
}

fn first_sense_of(arcs: &Vec<TimingText>, idx: &Vec<usize>) -> (r: String)
    requires
        forall|j: int| 0 <= j < idx@.len() ==> (#[trigger] idx@[j]) < arcs@.len(),
    ensures
        r@ == first_sense(timings_view(arcs@), indices_view(idx@)),
{
    let ghost all = timings_view(arcs@);
    let ghost iv = indices_view(idx@);
    let mut j: usize = 0;
    assert(iv.skip(0) =~= iv);
    while j < idx.len()
        invariant
            j <= idx@.len(),
            all == timings_view(arcs@),
            iv == indices_view(idx@),
            forall|j: int| 0 <= j < idx@.len() ==> (#[trigger] idx@[j]) < arcs@.len(),
            first_sense(all, iv) == first_sense(all, iv.skip(j as int)),
        decreases idx@.len() - j,
    {
        let a = &arcs[idx[j]];
        assert(iv.skip(j as int)[0] == iv[j as int]);
        assert(iv.skip(j as int).drop_first() =~= iv.skip(j + 1));
        assert(all[iv[j as int]] == a@);
        if !a.timing_sense.as_str().is_empty() {
            return a.timing_sense.clone();
        }
        j = j + 1;
    }
    assert(iv.skip(j as int) =~= Seq::<int>::empty());
    string_from_chars(Vec::<char>::new().as_slice())
}

proof fn lemma_related_in_range(arcs: Seq<crate::liberty::TimingModel>, name: Seq<char>)
    ensures
        forall|j: int|
            0 <= j < related_arcs(arcs, name).len() ==> 0 <= #[trigger] related_arcs(
                arcs,
                name,
            )[j] < arcs.len(),
    decreases arcs.len(),
{
    if arcs.len() > 0 {
        lemma_related_in_range(arcs.drop_last(), name);
        let r = related_arcs(arcs.drop_last(), name);
        assert forall|j: int|
            0 <= j < related_arcs(arcs, name).len() implies 0 <= #[trigger] related_arcs(
            arcs,
            name,
        )[j] < arcs.len() by {
            if j < r.len() {
                assert(related_arcs(arcs, name)[j] == r[j]);
            }
        }
    }
}

/// Decides whether a cell becomes a gate (see [`plan_matches`]).
pub fn plan_gate(cell: &CellText) -> (r: Result<GatePlan, SkipReason>)
    ensures
        plan_matches(cell@, r),
{
    let ghost pins = cell@.pins;
    if cell.dont_use {
        return Err(SkipReason::DontUse);
    }
    if cell.dont_touch {
        return Err(SkipReason::DontTouch);
    }
    if cell.is_sequential {
        return Err(SkipReason::Sequential);
    }
    let output: [char; 6] = ['o', 'u', 't', 'p', 'u', 't'];
    let input: [char; 5] = ['i', 'n', 'p', 'u', 't'];
    let inout: [char; 5] = ['i', 'n', 'o', 'u', 't'];
    proof {
        reveal_strlit("output");
        reveal_strlit("input");
        reveal_strlit("inout");
        assert(output@ =~= "output"@);
        assert(input@ =~= "input"@);
        assert(inout@ =~= "inout"@);
    }
    let mut outs: Vec<usize> = Vec::new();
    let mut ins: Vec<usize> = Vec::new();
    let mut any_output = false;
    let mut any_inout = false;
    let mut any_tristate = false;
    let mut k: usize = 0;
    assert(pins.take(0) =~= Seq::<PinModel>::empty());
    while k < cell.pins.len()
        invariant
            k <= cell.pins@.len(),
            pins == cell@.pins,
            pins.len() == cell.pins@.len(),
            output@ == "output"@,
            input@ == "input"@,
            inout@ == "inout"@,
            indices_view(outs@) == functional_outputs(pins.take(k as int)),
            indices_view(ins@) == inputs_of(pins.take(k as int)),
            any_output == exists|j: int| 0 <= j < k && pins[j].direction == "output"@,
            any_inout == exists|j: int| 0 <= j < k && pins[j].direction == "inout"@,
            any_tristate == exists|j: int|
                0 <= j < k && pins[j].direction == "output"@ && pins[j].three_state.len() > 0,
        decreases cell.pins@.len() - k,
    {
        proof {
            lemma_take_last(pins, k as int);
        }
        let p = &cell.pins[k];
        assert(pins[k as int] == p@);
        let is_out = text_is(&p.direction, output.as_slice());
        let is_in = text_is(&p.direction, input.as_slice());
        let is_inout = text_is(&p.direction, inout.as_slice());
        let has_function = !p.function.as_str().is_empty();
        let has_tristate = !p.three_state.as_str().is_empty();
        if is_out && has_function && !has_tristate {
            let ghost before = indices_view(outs@);
            outs.push(k);
            assert(indices_view(outs@) =~= before.push(k as int));
        }
        if is_in {
            let ghost before = indices_view(ins@);
            ins.push(k);
            assert(indices_view(ins@) =~= before.push(k as int));
        }
        if is_out {
            any_output = true;
        }
        if is_inout {
            any_inout = true;
        }
        if is_out && has_tristate {
            any_tristate = true;
        }
        k = k + 1;
    }
    assert(pins.take(pins.len() as int) =~= pins);
    proof {
        lemma_functional_outputs_in_range(pins);
        lemma_inputs_in_range(pins);
    }
    if outs.len() == 0 && any_tristate {
        return Err(SkipReason::TristateOnly);
    }
    if outs.len() == 0 {
        if any_output {
            return Err(SkipReason::OutputNoFunction);
        }
        if any_inout {
            return Err(SkipReason::InoutOnly);
        }
        return Err(SkipReason::NoOutputPin);
    }
    if ins.len() == 0 {
        let mut has_const = false;
        let mut j: usize = 0;
        while j < outs.len()
            invariant
                j <= outs@.len(),
                pins == cell@.pins,
                pins.len() == cell.pins@.len(),
                indices_view(outs@) == functional_outputs(pins),
                forall|i: int|
                    0 <= i < functional_outputs(pins).len() ==> 0 <= #[trigger] functional_outputs(
                        pins,
                    )[i] < pins.len(),
                has_const == exists|i: int|
                    0 <= i < j && is_constant_text(
                        trim_ws(pins[functional_outputs(pins)[i]].function),
                    ),
            decreases outs@.len() - j,
        {
            let o = outs[j];
            assert(functional_outputs(pins)[j as int] == o as int);
            assert(pins[o as int] == cell.pins@[o as int]@);
            if constant_level(cell.pins[o].function.as_str()).is_some() {
                has_const = true;
            }
            j = j + 1;
        }
        if !has_const {
            return Err(SkipReason::NoInputPin);
        }
    }
    if outs.len() > 1 {
        return Err(SkipReason::MultiOutput);
    }
    let o = outs[0];
    let out = &cell.pins[o];
    assert(pins[o as int] == out@);
    let function = normalize_function(out.function.as_str());
    let mut inputs: Vec<InputPlan> = Vec::new();
    let mut j: usize = 0;
    proof {
        lemma_related_in_range(timings_view(out.timing@), out@.name);
    }
    while j < ins.len()
        invariant
            j <= ins@.len(),
            pins == cell@.pins,
            pins.len() == cell.pins@.len(),
            o < pins.len(),
            pins[o as int] == out@,
            indices_view(ins@) == inputs_of(pins),
            forall|i: int|
                0 <= i < inputs_of(pins).len() ==> 0 <= #[trigger] inputs_of(pins)[i] < pins.len(),
            plans_view(inputs@) == inputs_of(pins).take(j as int).map_values(
                |i: int| input_plan(pins, o as int, i),
            ),
        decreases ins@.len() - j,
    {
        let i = ins[j];
        assert(inputs_of(pins)[j as int] == i as int);
        let ip = &cell.pins[i];
        assert(pins[i as int] == ip@);
        let arcs = related_arc_indices(&out.timing, &ip.name);
        proof {
            lemma_related_in_range(timings_view(out.timing@), ip@.name);
            assert forall|m: int| 0 <= m < arcs@.len() implies (#[trigger] arcs@[m])
                < out.timing@.len() by {
                assert(indices_view(arcs@)[m] == arcs@[m] as int);
            }
        }
        let sense = first_sense_of(&out.timing, &arcs);
        let phase = if !sense.as_str().is_empty() {
            infer_phase_from_sense(sense.as_str())
        } else {
            infer_phase_from_function(out.function.as_str(), ip.name.as_str())
        };
        let plan = InputPlan { pin: i, arcs, phase };
        assert(plan@ == input_plan(pins, o as int, i as int));
        let ghost before = plans_view(inputs@);
        inputs.push(plan);
        assert(inputs_of(pins).take(j + 1) =~= inputs_of(pins).take(j as int).push(i as int));
        assert(plans_view(inputs@) =~= before.push(input_plan(pins, o as int, i as int)));
        assert(plans_view(inputs@) =~= inputs_of(pins).take(j + 1).map_values(
            |i: int| input_plan(pins, o as int, i),
        ));
        j = j + 1;
    }
    assert(inputs_of(pins).take(ins@.len() as int) =~= inputs_of(pins));
    Ok(GatePlan { output: o, function, inputs })
}

proof fn lemma_functional_outputs_in_range(pins: Seq<PinModel>)
    ensures
        forall|i: int|
            0 <= i < functional_outputs(pins).len() ==> 0 <= #[trigger] functional_outputs(
                pins,
            )[i] < pins.len() && is_functional_output(pins[functional_outputs(pins)[i]]),
        forall|k: int|
            0 <= k < pins.len() && is_functional_output(pins[k]) ==> exists|i: int|
                0 <= i < functional_outputs(pins).len() && functional_outputs(pins)[i] == k,
    decreases pins.len(),
{
    if pins.len() > 0 {
        lemma_functional_outputs_in_range(pins.drop_last());
        let r = functional_outputs(pins.drop_last());
        assert forall|k: int|
            0 <= k < pins.len() && is_functional_output(pins[k]) implies exists|i: int|
                0 <= i < functional_outputs(pins).len() && functional_outputs(pins)[i] == k by {
            if k < pins.len() - 1 {
                assert(pins[k] == pins.drop_last()[k]);
                let i = choose|i: int| 0 <= i < r.len() && r[i] == k;
                assert(functional_outputs(pins)[i] == k);
            } else {
                assert(functional_outputs(pins)[r.len() as int] == k);
            }
        }
    }
}

proof fn lemma_inputs_in_range(pins: Seq<PinModel>)
    ensures
        forall|i: int| 0 <= i < inputs_of(pins).len() ==> 0 <= #[trigger] inputs_of(pins)[i] < pins.len(),
    decreases pins.len(),
{
    if pins.len() > 0 {
        lemma_inputs_in_range(pins.drop_last());
        let r = inputs_of(pins.drop_last());
        assert forall|i: int| 0 <= i < inputs_of(pins).len() implies 0 <= #[trigger] inputs_of(
            pins,
        )[i] < pins.len() by {
            if i < r.len() {
                assert(inputs_of(pins)[i] == r[i]);
            }
        }
    }
}

// ---------------------------------------------------------------------------
// Laws
// ---------------------------------------------------------------------------

/// A character that Liberty uses as an operator and GENLIB does not.
pub open spec fn is_liberty_only_operator(c: char) -> bool {
    c == '~' || c == '&' || c == '|' || c == '\''
}

/// The GENLIB spelling of a function holds none of Liberty's own operators
/// `~`, `&`, `|` and `'`; in particular no `1'b0` or `1'b1` is left.
pub proof fn normalized_has_no_liberty_operator(f: Seq<u8>)
    ensures
        forall|k: int|
            0 <= k < normalized(f).len() ==> !is_liberty_only_operator(#[trigger] normalized(f)[k]),
    decreases f.len(),
{
    if f.len() > 0 {
        normalized_has_no_liberty_operator(f.drop_last());
        let out = normalized(f.drop_last());
        let b = f.last();
        let r = normalized(f);
        assert(r == normalize_step(out, b));
        if b == APOSTROPHE {
            let s = ident_start(out);
            lemma_ident_start(out);
            if s < out.len() {
                assert forall|k: int| 0 <= k < r.len() implies !is_liberty_only_operator(
                    #[trigger] r[k],
                ) by {
                    if k < s {
                        assert(r[k] == out[k]);
                    } else if k > s {
                        assert(r[k] == out[k - 1]);
                    }
                }
            }
        } else if b != TILDE && b != AMPERSAND && b != PIPE {
            assert((b as char) as u32 == b as u32);
            assert forall|k: int| 0 <= k < r.len() implies !is_liberty_only_operator(
                #[trigger] r[k],
            ) by {
                if k < out.len() {
                    assert(r[k] == out[k]);
                }
            }
        } else {
            assert forall|k: int| 0 <= k < r.len() implies !is_liberty_only_operator(
                #[trigger] r[k],
            ) by {
                if k < out.len() {
                    assert(r[k] == out[k]);
                }
            }
        }
    }
}

/// A function that holds none of `~`, `&`, `|` and `'` keeps its text: each
/// byte becomes the character with its code.
pub proof fn normalize_keeps_plain_function(f: Seq<u8>)
    requires
        forall|k: int|
            0 <= k < f.len() ==> #[trigger] f[k] != TILDE && f[k] != AMPERSAND && f[k] != PIPE
                && f[k] != APOSTROPHE,
    ensures
        normalized(f) == f.map_values(|b: u8| b as char),
    decreases f.len(),
{
    if f.len() > 0 {
        assert forall|k: int| 0 <= k < f.drop_last().len() implies #[trigger] f.drop_last()[k]
            != TILDE && f.drop_last()[k] != AMPERSAND && f.drop_last()[k] != PIPE
            && f.drop_last()[k] != APOSTROPHE by {
            assert(f.drop_last()[k] == f[k]);
        }
        normalize_keeps_plain_function(f.drop_last());
        assert(f.last() == f[f.len() - 1]);
        assert(normalized(f) =~= f.map_values(|b: u8| b as char));
    }
}

/// A function in which the (non-empty) input pin does not occur at all
/// gives that input no phase: `UNKNOWN`.
pub proof fn phase_unknown_for_absent_pin(function: Seq<u8>, pin: Seq<u8>)
    requires
        pin.len() > 0,
        forall|i: int| !matches_at(drop_spaces(function), pin, i),
    ensures
        function_phase(function, pin) == "UNKNOWN"@,
{
    let f = drop_spaces(function);
    lemma_find_exact(f, pin, 0);
    assert(!uses_plain(f, pin));
    assert forall|i: int| !matches_at(f, seq![BANG] + pin, i) by {
        if matches_at(f, seq![BANG] + pin, i) {
            assert forall|k: int| 0 <= k < pin.len() implies f[i + 1 + k] == #[trigger] pin[k] by {
                assert((seq![BANG] + pin)[k + 1] == pin[k]);
            }
            assert(matches_at(f, pin, i + 1));
        }
    }
    assert forall|i: int| !matches_at(f, seq![TILDE] + pin, i) by {
        if matches_at(f, seq![TILDE] + pin, i) {
            assert forall|k: int| 0 <= k < pin.len() implies f[i + 1 + k] == #[trigger] pin[k] by {
                assert((seq![TILDE] + pin)[k + 1] == pin[k]);
            }
            assert(matches_at(f, pin, i + 1));
        }
    }
    assert forall|i: int| !matches_at(f, pin.push(APOSTROPHE), i) by {
        if matches_at(f, pin.push(APOSTROPHE), i) {
            assert forall|k: int| 0 <= k < pin.len() implies f[i + k] == #[trigger] pin[k] by {
                assert(pin.push(APOSTROPHE)[k] == pin[k]);
            }
            assert(matches_at(f, pin, i));
        }
    }
    assert(!uses_negated(f, pin));
}

/// A cell that becomes a gate is usable (not `dont_use`, not `dont_touch`,
/// not sequential), has exactly one functional output, which is its gate
/// output, and its gate inputs are input pins.
pub proof fn gate_has_one_output(c: CellModel)
    requires
        gate_decision(c) is Ok,
    ensures
        !c.dont_use && !c.dont_touch && !c.is_sequential,
        gate_decision(c) matches Ok((o, ins)) ==> {
            &&& functional_outputs(c.pins) == seq![o]
            &&& 0 <= o < c.pins.len()
            &&& is_functional_output(c.pins[o])
            &&& forall|k: int| 0 <= k < ins.len() ==> is_input(c.pins[#[trigger] ins[k]])
        },
{
    lemma_functional_outputs_in_range(c.pins);
    lemma_inputs_are_inputs(c.pins);
    let outs = functional_outputs(c.pins);
    assert(outs.len() == 1);
    assert(outs =~= seq![outs[0]]);
}

proof fn lemma_inputs_are_inputs(pins: Seq<PinModel>)
    ensures
        forall|i: int| 0 <= i < inputs_of(pins).len() ==> is_input(pins[#[trigger] inputs_of(pins)[i]]),
    decreases pins.len(),
{
    if pins.len() > 0 {
        lemma_inputs_are_inputs(pins.drop_last());
        lemma_inputs_in_range(pins.drop_last());
        let r = inputs_of(pins.drop_last());
        assert forall|i: int| 0 <= i < inputs_of(pins).len() implies is_input(
            pins[#[trigger] inputs_of(pins)[i]],
        ) by {
            if i < r.len() {
                assert(inputs_of(pins)[i] == r[i]);
                assert(pins[r[i]] == pins.drop_last()[r[i]]);
            }
        }
    }
}

proof fn lemma_no_functional_output(pins: Seq<PinModel>)
    requires
        forall|j: int| 0 <= j < pins.len() ==> !is_functional_output(#[trigger] pins[j]),
    ensures
        functional_outputs(pins) == Seq::<int>::empty(),
    decreases pins.len(),
{
    if pins.len() > 0 {
        assert forall|j: int| 0 <= j < pins.drop_last().len() implies !is_functional_output(
            #[trigger] pins.drop_last()[j],
        ) by {
            assert(pins.drop_last()[j] == pins[j]);
        }
        lemma_no_functional_output(pins.drop_last());
        assert(!is_functional_output(pins[pins.len() - 1]));
    }
}

proof fn lemma_one_functional_output(pins: Seq<PinModel>, k: int)
    requires
        0 <= k < pins.len(),
        is_functional_output(pins[k]),
        forall|j: int| 0 <= j < pins.len() && j != k ==> !is_functional_output(#[trigger] pins[j]),
    ensures
        functional_outputs(pins) == seq![k],
    decreases pins.len(),
{
    let p = pins.drop_last();
    if k < pins.len() - 1 {
        assert forall|j: int| 0 <= j < p.len() && j != k implies !is_functional_output(
            #[trigger] p[j],
        ) by {
            assert(p[j] == pins[j]);
        }
        assert(p[k] == pins[k]);
        lemma_one_functional_output(p, k);
        assert(!is_functional_output(pins[pins.len() - 1]));
    } else {
        assert forall|j: int| 0 <= j < p.len() implies !is_functional_output(#[trigger] p[j]) by {
            assert(p[j] == pins[j]);
        }
        lemma_no_functional_output(p);
        assert(pins.last() == pins[k]);
        assert(functional_outputs(pins) =~= seq![k]);
    }
}

proof fn lemma_no_inputs(pins: Seq<PinModel>)
    requires
        forall|j: int| 0 <= j < pins.len() ==> (#[trigger] pins[j]).direction != "input"@,
    ensures
        inputs_of(pins) == Seq::<int>::empty(),
    decreases pins.len(),
{
    if pins.len() > 0 {
        assert forall|j: int| 0 <= j < pins.drop_last().len() implies (
        #[trigger] pins.drop_last()[j]).direction != "input"@ by {
            assert(pins.drop_last()[j] == pins[j]);
        }
        lemma_no_inputs(pins.drop_last());
        assert(pins[pins.len() - 1].direction != "input"@);
    }
}

/// A tie cell is a gate: a usable, combinational cell whose only functional
/// output (an output with a function and no three-state condition) is the
/// pin `k`, that has no input pin, and whose function is, once trimmed, one
/// of the constants `0`, `1`, `1'b0` or `1'b1`, becomes a gate with output
/// `k` and no inputs.
pub proof fn tie_cell_becomes_gate(c: CellModel, k: int)
    requires
        !c.dont_use,
        !c.dont_touch,
        !c.is_sequential,
        0 <= k < c.pins.len(),
        c.pins[k].direction == "output"@,
        c.pins[k].function.len() > 0,
        c.pins[k].three_state.len() == 0,
        forall|j: int|
            0 <= j < c.pins.len() && j != k ==> !((#[trigger] c.pins[j]).direction == "output"@
                && c.pins[j].function.len() > 0 && c.pins[j].three_state.len() == 0),
        forall|j: int| 0 <= j < c.pins.len() ==> (#[trigger] c.pins[j]).direction != "input"@,
        ({
            let t = trim_ws(c.pins[k].function);
            t == "0"@ || t == "1"@ || t == "1'b0"@ || t == "1'b1"@
        }),
    ensures
        gate_decision(c) == Ok::<(int, Seq<int>), SkipReason>((k, Seq::<int>::empty())),
{
    assert forall|j: int| 0 <= j < c.pins.len() && j != k implies !is_functional_output(
        #[trigger] c.pins[j],
    ) by {}
    lemma_one_functional_output(c.pins, k);
    lemma_no_inputs(c.pins);
    let outs = functional_outputs(c.pins);
    assert(outs[0] == k);
    assert(is_constant_text(trim_ws(c.pins[outs[0]].function)));
}

/// `find_exact` finds the first occurrence: the occurrence at `m`, with none
/// between `from` and `m`.
pub proof fn lemma_find_exact_is(data: Seq<u8>, needle: Seq<u8>, from: int, m: int)
    requires
        0 <= from <= m,
        matches_at(data, needle, m),
        forall|j: int| from <= j < m ==> !matches_at(data, needle, j),
    ensures
        find_exact(data, needle, from) == Some(m),
    decreases m - from,
{
    if from < m {
        lemma_find_exact_is(data, needle, from + 1, m);
    }
}

proof fn lemma_alone_reached(f: Seq<u8>, pin: Seq<u8>, from: int, i: int)
    requires
        pin.len() > 0,
        0 <= from <= i,
        matches_at(f, pin, i),
        stands_alone(f, pin, i),
        forall|j: int| j < i < j + pin.len() ==> !matches_at(f, pin, j),
    ensures
        alone_from(f, pin, from),
    decreases i - from,
{
    lemma_find_exact(f, pin, from);
    let m = find_exact(f, pin, from)->0;
    assert(find_exact(f, pin, from) is Some);
    if m < i {
        assert(m + pin.len() <= i);
        lemma_alone_reached(f, pin, m + pin.len(), i);
    }
}

/// A pin is used plainly when one of its occurrences in the function stands
/// alone and no earlier occurrence overlaps it (so that it is one of the
/// occurrences that `str::match_indices` lists), wherever that occurrence
/// is: later occurrences count as much as the first one.
pub proof fn standalone_occurrence_is_plain_use(f: Seq<u8>, pin: Seq<u8>, i: int)
    requires
        pin.len() > 0,
        matches_at(f, pin, i),
        stands_alone(f, pin, i),
        forall|j: int| j < i < j + pin.len() ==> !matches_at(f, pin, j),
    ensures
        uses_plain(f, pin),
{
    lemma_alone_reached(f, pin, 0, i);
}

/// A pin that the function uses plainly at some occurrence (see
/// [`standalone_occurrence_is_plain_use`]) is never given the phase `INV`;
/// when the function also negates it, its phase is `UNKNOWN`.
pub proof fn plain_use_is_not_inverting(function: Seq<u8>, pin: Seq<u8>, i: int)
    requires
        pin.len() > 0,
        matches_at(drop_spaces(function), pin, i),
        stands_alone(drop_spaces(function), pin, i),
        forall|j: int| j < i < j + pin.len() ==> !matches_at(drop_spaces(function), pin, j),
    ensures
        function_phase(function, pin) != "INV"@,
        uses_negated(drop_spaces(function), pin) ==> function_phase(function, pin) == "UNKNOWN"@,
{
    standalone_occurrence_is_plain_use(drop_spaces(function), pin, i);
    reveal_strlit("INV");
    reveal_strlit("NONINV");
    reveal_strlit("UNKNOWN");
    assert("NONINV"@.len() != "INV"@.len());
    assert("UNKNOWN"@.len() != "INV"@.len());
}

} // verus!
