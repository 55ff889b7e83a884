//! Command recognition: turning a decoded RESP array of bulk strings into
//! one of the four supported commands.
//!
//! The command word is matched case-insensitively. PING ignores extra
//! operands; ECHO and GET take exactly one operand; SET takes a key and a
//! value, optionally followed by `PX <milliseconds>` (also matched
//! case-insensitively). Anything else is a protocol error.

use vstd::prelude::*;

use crate::resp::{
    ArrayParse, SpecParse, bytes_eq, copy_bytes, digits_val, is_digit, lemma_digits_val_bound,
    lemma_parse_array_bounds, lemma_parse_array_extend, lemma_pow10_le, parse_array, pow10,
    spec_parse_array,
};

verus! {

/// Upper bound on the digit count of a PX operand; more digits are a
/// protocol error. Nineteen digits keep every accepted count below `10^19`,
/// which fits in 64 bits.
pub const MAX_PX_DIGITS: u64 = 19;

/// A parsed command, at the specification level.
pub enum CommandV {
    Ping,
    Echo { msg: Seq<u8> },
    Get { key: Seq<u8> },
    SetKv { key: Seq<u8>, value: Seq<u8>, expiry_ms: Option<u64> },
}

/// A parsed command: PING, ECHO with its message, GET with its key, or SET
/// with key, value and optional relative expiry in milliseconds.
pub enum Command {
    Ping,
    Echo { msg: Vec<u8> },
    Get { key: Vec<u8> },
    SetKv { key: Vec<u8>, value: Vec<u8>, expiry_ms: Option<u64> },
}

impl View for Command {
    type V = CommandV;

    open spec fn view(&self) -> CommandV {
        match self {
            Command::Ping => CommandV::Ping,
            Command::Echo { msg } => CommandV::Echo { msg: msg@ },
            Command::Get { key } => CommandV::Get { key: key@ },
            Command::SetKv { key, value, expiry_ms } => CommandV::SetKv {
                key: key@,
                value: value@,
                expiry_ms: *expiry_ms,
            },
        }
    }
}

/// Maps an ASCII upper-case letter to lower case; other bytes unchanged.
pub open spec fn lower_byte(b: u8) -> u8 {
    if 65 <= b && b <= 90 {
        (b + 32) as u8
    } else {
        b
    }
}

/// ASCII-lower-cases every byte of `s`.
pub open spec fn ascii_lower(s: Seq<u8>) -> Seq<u8> {
    s.map_values(|b: u8| lower_byte(b))
}

/// The bytes of `ping`.
pub open spec fn word_ping() -> Seq<u8> {
    seq![112u8, 105u8, 110u8, 103u8]
}

/// The bytes of `echo`.
pub open spec fn word_echo() -> Seq<u8> {
    seq![101u8, 99u8, 104u8, 111u8]
}

/// The bytes of `get`.
pub open spec fn word_get() -> Seq<u8> {
    seq![103u8, 101u8, 116u8]
}

/// The bytes of `set`.
pub open spec fn word_set() -> Seq<u8> {
    seq![115u8, 101u8, 116u8]
}

/// The bytes of `px`.
pub open spec fn word_px() -> Seq<u8> {
    seq![112u8, 120u8]
}

/// The millisecond count denoted by a PX operand: a non-empty run of at
/// most [`MAX_PX_DIGITS`] ASCII digits; anything else is rejected.
pub open spec fn spec_parse_px(s: Seq<u8>) -> Option<u64> {
    if s.len() == 0 || s.len() > MAX_PX_DIGITS || exists|k: int|
        0 <= k < s.len() && !is_digit(s[k]) {
        None
    } else {
        Some(digits_val(s, 0, s.len() as int) as u64)
    }
}

/// The command denoted by a RESP array's elements, or `None` when the
/// elements form no valid command.
pub open spec fn spec_command_of(elems: Seq<Seq<u8>>) -> Option<CommandV> {
    if elems.len() == 0 {
        None
    } else {
        let w = ascii_lower(elems[0]);
        if w == word_ping() {
            Some(CommandV::Ping)
        } else if w == word_echo() {
            if elems.len() == 2 {
                Some(CommandV::Echo { msg: elems[1] })
            } else {
                None
            }
        } else if w == word_get() {
            if elems.len() == 2 {
                Some(CommandV::Get { key: elems[1] })
            } else {
                None
            }
        } else if w == word_set() {
            if elems.len() == 3 {
                Some(CommandV::SetKv { key: elems[1], value: elems[2], expiry_ms: None })
            } else if elems.len() == 5 && ascii_lower(elems[3]) == word_px() {
                match spec_parse_px(elems[4]) {
                    Some(ms) => Some(
                        CommandV::SetKv { key: elems[1], value: elems[2], expiry_ms: Some(ms) },
                    ),
                    None => None,
                }
            } else {
                None
            }
        } else {
            None
        }
    }
}

/// Parses one complete request at the start of `s`: an array of bulk
/// strings that forms a recognized command.
pub open spec fn spec_parse_command(s: Seq<u8>) -> SpecParse<CommandV> {
    match spec_parse_array(s, 0) {
        SpecParse::More => SpecParse::More,
        SpecParse::Fail => SpecParse::Fail,
        SpecParse::Done { val: elems, end } => match spec_command_of(elems) {
            Some(c) => SpecParse::Done { val: c, end },
            None => SpecParse::Fail,
        },
    }
}

/// Command recognition is insensitive to the case of the command word:
/// replacing the first element by anything with the same lower-casing
/// leaves the outcome unchanged.
pub proof fn lemma_command_case_insensitive(elems: Seq<Seq<u8>>, w: Seq<u8>)
    requires
        elems.len() >= 1,
        ascii_lower(w) == ascii_lower(elems[0]),
    ensures
        spec_command_of(elems.update(0, w)) == spec_command_of(elems),
{
    let e2 = elems.update(0, w);
    assert(e2.len() == elems.len());
    assert(forall|k: int| 1 <= k < elems.len() ==> e2[k] == elems[k]);
}

/// ASCII-lower-cases a byte slice.
pub fn to_lower(v: &[u8]) -> (r: Vec<u8>)
    ensures
        r@ == ascii_lower(v@),
{
    let mut out: Vec<u8> = Vec::new();
    let mut i: usize = 0;
    while i < v.len()
        invariant
            i <= v@.len(),
            out@.len() == i,
            forall|k: int| 0 <= k < i ==> out@[k] == lower_byte(v@[k]),
        decreases v@.len() - i,
    {
        let b = v[i];
        if 65 <= b && b <= 90 {
            out.push(b + 32);
        } else {
            out.push(b);
        }
        i += 1;
    }
    proof {
        assert(out@ =~= ascii_lower(v@));
    }
    out
}

/// Parses a PX operand into a millisecond count.
pub fn parse_px_value(v: &[u8]) -> (r: Option<u64>)
    ensures
        r == spec_parse_px(v@),
{
    if v.len() == 0 || (v.len() as u64) > MAX_PX_DIGITS {
        return None;
    }
    let mut i: usize = 0;
    while i < v.len()
        invariant
            i <= v@.len(),
            forall|k: int| 0 <= k < i ==> is_digit(v@[k]),
        decreases v@.len() - i,
    {
        let b = v[i];
        if b < 48 || b > 57 {
            return None;
        }
        i += 1;
    }
    proof {
        lemma_digits_val_bound(v@, 0, v@.len() as int);
        lemma_pow10_le(v@.len() as nat, 19nat);
        assert(pow10(19nat) == 10000000000000000000) by {
            reveal_with_fuel(pow10, 20);
        }
    }
    let mut n: u64 = 0;
    let mut k: usize = 0;
    while k < v.len()
        invariant
            k <= v@.len(),
            v@.len() <= MAX_PX_DIGITS,
            forall|q: int| 0 <= q < v@.len() ==> is_digit(v@[q]),
            n == digits_val(v@, 0, k as int),
            0 <= n < pow10(k as nat),
        decreases v@.len() - k,
    {
        proof {
            lemma_digits_val_bound(v@, 0, k as int);
            lemma_pow10_le(k as nat, 18nat);
            assert(pow10(18nat) == 1000000000000000000) by {
                reveal_with_fuel(pow10, 19);
            }
            assert(pow10((k + 1) as nat) == 10 * pow10(k as nat));
        }
        n = n * 10 + (v[k] - 48) as u64;
        k += 1;
    }
    Some(n)
}

/// Outcome of the executable request decoder; mirrors
/// [`spec_parse_command`].
pub enum CommandParse {
    Complete { command: Command, end: usize },
    Incomplete,
    Error,
}

/// The specification-level reading of a [`CommandParse`].
pub open spec fn command_parse_view(r: CommandParse) -> SpecParse<CommandV> {
    match r {
        CommandParse::Complete { command, end } => SpecParse::Done {
            val: command@,
            end: end as int,
        },
        CommandParse::Incomplete => SpecParse::More,
        CommandParse::Error => SpecParse::Fail,
    }
}

/// Decodes one complete request from the start of `buf`: the command and
/// the byte count it occupies, or the need for more bytes, or a protocol
/// error.
pub fn parse_redis_command(buf: &[u8]) -> (r: CommandParse)
    ensures
        command_parse_view(r) == spec_parse_command(buf@),
{
    let a = parse_array(buf, 0);
    match a {
        ArrayParse::Incomplete => CommandParse::Incomplete,
        ArrayParse::Error => CommandParse::Error,
        ArrayParse::Complete { elems, end } => {
            proof {
                lemma_parse_array_bounds(buf@, 0);
                assert(elems.deep_view().len() == elems@.len());
            }
            let ghost ev = elems.deep_view();
            proof {
                assert forall|k: int| 0 <= k < elems@.len() implies ev[k] == elems@[k]@ by {
                    assert(ev[k] =~= elems@[k]@);
                }
            }
            let w = to_lower(elems[0].as_slice());
            if bytes_eq(w.as_slice(), ping_bytes().as_slice()) {
                return CommandParse::Complete { command: Command::Ping, end };
            }
            if bytes_eq(w.as_slice(), echo_bytes().as_slice()) {
                if elems.len() == 2 {
                    let msg = copy_bytes(elems[1].as_slice());
                    return CommandParse::Complete { command: Command::Echo { msg }, end };
                }
                return CommandParse::Error;
            }
            if bytes_eq(w.as_slice(), get_bytes().as_slice()) {
                if elems.len() == 2 {
                    let key = copy_bytes(elems[1].as_slice());
                    return CommandParse::Complete { command: Command::Get { key }, end };
                }
                return CommandParse::Error;
            }
            if bytes_eq(w.as_slice(), set_bytes().as_slice()) {
                if elems.len() == 3 {
                    let key = copy_bytes(elems[1].as_slice());
                    let value = copy_bytes(elems[2].as_slice());
                    return CommandParse::Complete {
                        command: Command::SetKv { key, value, expiry_ms: None },
                        end,
                    };
                }
                if elems.len() == 5 {
                    let opt = to_lower(elems[3].as_slice());
                    if bytes_eq(opt.as_slice(), px_bytes().as_slice()) {
                        match parse_px_value(elems[4].as_slice()) {
                            Some(ms) => {
                                let key = copy_bytes(elems[1].as_slice());
                                let value = copy_bytes(elems[2].as_slice());
                                return CommandParse::Complete {
                                    command: Command::SetKv { key, value, expiry_ms: Some(ms) },
                                    end,
                                };
                            },
                            None => {
                                return CommandParse::Error;
                            },
                        }
                    }
                    return CommandParse::Error;
                }
                return CommandParse::Error;
            }
            CommandParse::Error
        },
    }
}

/// Builds the bytes of `ping`.
fn ping_bytes() -> (r: Vec<u8>)
    ensures
        r@ == word_ping(),
{
    let mut v: Vec<u8> = Vec::new();
    v.push(112);
    v.push(105);
    v.push(110);
    v.push(103);
    proof {
        assert(v@ =~= word_ping());
    }
    v
}

/// Builds the bytes of `echo`.
fn echo_bytes() -> (r: Vec<u8>)
    ensures
        r@ == word_echo(),
{
    let mut v: Vec<u8> = Vec::new();
    v.push(101);
    v.push(99);
    v.push(104);
    v.push(111);
    proof {
        assert(v@ =~= word_echo());
    }
    v
}

/// Builds the bytes of `get`.
fn get_bytes() -> (r: Vec<u8>)
    ensures
        r@ == word_get(),
{
    let mut v: Vec<u8> = Vec::new();
    v.push(103);
    v.push(101);
    v.push(116);
    proof {
        assert(v@ =~= word_get());
    }
    v
}

/// Builds the bytes of `set`.
fn set_bytes() -> (r: Vec<u8>)
    ensures
        r@ == word_set(),
{
    let mut v: Vec<u8> = Vec::new();
    v.push(115);
    v.push(101);
    v.push(116);
    proof {
        assert(v@ =~= word_set());
    }
    v
}

/// Builds the bytes of `px`.
fn px_bytes() -> (r: Vec<u8>)
    ensures
        r@ == word_px(),
{
    let mut v: Vec<u8> = Vec::new();
    v.push(112);
    v.push(120);
    proof {
        assert(v@ =~= word_px());
    }
    v
}

/// A request parse that has decided is unaffected by appending bytes; only
/// an incomplete request can change.
pub proof fn lemma_parse_command_extend(s: Seq<u8>, ext: Seq<u8>)
    ensures
        spec_parse_command(s) is Done ==> spec_parse_command(s + ext) == spec_parse_command(s),
        spec_parse_command(s) is Fail ==> spec_parse_command(s + ext) is Fail,
{
    lemma_parse_array_extend(s, ext, 0);
}

} // verus!
