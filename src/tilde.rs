//! The leading `~` forms of a path that the directory marker expands before it
//! asks whether the path names a directory.
use vstd::prelude::*;
use vstd::string::StringSliceAdditionalSpecFns;
use crate::lexer::{find_byte, first_at, lemma_first_at};

verus! {

pub const TILDE: u8 = 0x7e;
pub const SLASH: u8 = 0x2f;
pub const PLUS: u8 = 0x2b;
pub const MINUS: u8 = 0x2d;

/// What a path's `~` prefix (up to the first `/`) stands for.
#[derive(Clone, Copy, Debug, PartialEq, Eq, Structural)]
pub enum Tilde {
    /// The path does not start with `~`.
    Absent,
    /// `~`: the current user's home directory.
    Home,
    /// `~name`: the home directory of the user `name`.
    User,
    /// `~+`: the working directory.
    WorkingDir,
    /// `~-`: the previous working directory.
    PreviousDir,
}

/// The kind of the prefix of `s`, and its length in bytes (zero when absent).
pub open spec fn tilde_of(s: Seq<u8>) -> (Tilde, int) {
    if s.len() == 0 || s[0] != TILDE {
        (Tilde::Absent, 0)
    } else {
        let n = first_at(s, 0, SLASH);
        let name = s.subrange(1, n);
        let kind = if name == seq![PLUS] {
            Tilde::WorkingDir
        } else if name == seq![MINUS] {
            Tilde::PreviousDir
        } else if name.len() == 0 {
            Tilde::Home
        } else {
            Tilde::User
        };
        (kind, n)
    }
}

/// Splits off the `~` prefix of a path: what it stands for, and where the rest
/// of the path begins. For `Tilde::User` the user name is the text between the
/// `~` and that point.
pub fn split_tilde(s: &str) -> (r: (Tilde, usize))
    ensures
        r.0 == tilde_of(s.spec_bytes()).0,
        r.1 == tilde_of(s.spec_bytes()).1,
{
    let b = s.as_bytes();
    if b.len() == 0 || b[0] != TILDE {
        return (Tilde::Absent, 0);
    }
    let n = find_byte(b, 0, SLASH);
    proof {
        lemma_first_at(b@, 0, SLASH);
    }
    let ghost name = b@.subrange(1, n as int);
    let kind = if n == 2 && b[1] == PLUS {
        assert(name =~= seq![PLUS]);
        Tilde::WorkingDir
    } else if n == 2 && b[1] == MINUS {
        assert(name =~= seq![MINUS]);
        assert(seq![PLUS][0] == PLUS && seq![MINUS][0] == MINUS);
        Tilde::PreviousDir
    } else if n == 1 {
        assert(name.len() == 0);
        Tilde::Home
    } else {
        assert(n >= 1);
        if n == 2 {
            assert(name[0] == b@[1]);
            assert(seq![PLUS][0] == PLUS && seq![MINUS][0] == MINUS);
        } else {
            assert(seq![PLUS].len() == 1 && seq![MINUS].len() == 1);
        }
        Tilde::User
    };
    (kind, n)
}

} // verus!
