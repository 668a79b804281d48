use vstd::prelude::*;

verus! {

/// The kernel's code for an invalid argument.
pub const EINVAL: i32 = 22;

/// The kernel's code for a result that does not fit the buffer given.
pub const ERANGE: i32 = 34;

/// Why an operation of this layer failed.
#[derive(Debug, Clone, Copy, PartialEq, Eq, Structural)]
pub enum OsError {
    /// The kernel refused the call with this code.
    Os(i32),
    /// A key, value or path holds a zero byte, which the kernel's calling
    /// convention cannot carry; no call was made.
    Encoding,
}

pub open spec fn digit_char(d: nat) -> char {
    ((48 + d) as u32) as char
}

/// The decimal digits of `n`, most significant first.
pub open spec fn decimal(n: nat) -> Seq<char>
    decreases n,
{
    if n < 10 {
        seq![digit_char(n)]
    } else {
        decimal(n / 10).push(digit_char(n % 10))
    }
}

/// An integer in decimal, with a leading minus sign when negative.
pub open spec fn signed_decimal(i: int) -> Seq<char> {
    if i < 0 {
        seq!['-'] + decimal((-i) as nat)
    } else {
        decimal(i as nat)
    }
}

/// The text given for a code that has no description.
pub open spec fn unknown_error_text(code: int) -> Seq<char> {
    "Unknown OS error ("@ + signed_decimal(code) + ")"@
}

/// Relies on String::push: the character is appended at the end.
#[verifier::external_body]
fn push_char(s: &mut String, c: char)
    ensures
        final(s)@ == old(s)@.push(c),
{
    s.push(c)
}

fn digit(d: u32) -> (c: char)
    requires
        d < 10,
    ensures
        c == digit_char(d as nat),
{
    let b: u8 = 48 + d as u8;
    b as char
}

fn push_decimal(s: &mut String, n: u32)
    ensures
        final(s)@ == old(s)@ + decimal(n as nat),
    decreases n,
{
    if n >= 10 {
        push_decimal(s, n / 10);
    }
    let c = digit(n % 10);
    push_char(s, c);
    assert(final(s)@ =~= old(s)@ + decimal(n as nat));
}

/// The description of an error code: the one the platform's table gives,
/// or, where it gives none, "Unknown OS error (<code>)".
pub fn error_string(errno: i32, described: Option<String>) -> (r: String)
    ensures
        described.is_some() ==> r@ == described.unwrap()@,
        described.is_none() ==> r@ == unknown_error_text(errno as int),
{
    match described {
        Some(d) => d,
        None => {
            let mut s = String::from_str("Unknown OS error (");
            let ghost start = s@;
            if errno < 0 {
                push_char(&mut s, '-');
            }
            let wide: i64 = errno as i64;
            let magnitude: u32 = if wide < 0 { (0 - wide) as u32 } else { wide as u32 };
            push_decimal(&mut s, magnitude);
            push_char(&mut s, ')');
            proof {
                reveal_strlit("Unknown OS error (");
                reveal_strlit(")");
            }
            assert(s@ =~= unknown_error_text(errno as int));
            s
        },
    }
}

} // verus!
