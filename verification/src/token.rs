use vstd::prelude::*;

verus! {

/// Outcome of a three-way comparison between two tokens.
pub enum TokenCmp {
    Less,
    Equal,
    Greater,
}

/// An atomic input symbol: a copyable value with decidable equality and a
/// total order.
///
/// The trie algorithms themselves only need equality of tokens; the order is
/// used to canonicalize lists of sequences (duplicate removal, deterministic
/// child ordering) and to keep the segment sets of the length-grouped stage
/// in one canonical form.
pub trait Token: Copy + Sized {
    /// The total order on tokens, at the specification level.
    spec fn le(self, other: Self) -> bool;

    proof fn le_transitive(x: Self, y: Self, z: Self)
        requires
            x.le(y),
            y.le(z),
        ensures
            x.le(z),
    ;

    proof fn le_antisymmetric(x: Self, y: Self)
        requires
            x.le(y),
            y.le(x),
        ensures
            x == y,
    ;

    proof fn le_total(x: Self, y: Self)
        ensures
            x.le(y) || y.le(x),
    ;

    /// Three-way comparison whose `Equal` case coincides with specification
    /// equality.
    fn compare(&self, other: &Self) -> (c: TokenCmp)
        ensures
            match c {
                TokenCmp::Less => self.le(*other) && *self != *other,
                TokenCmp::Equal => *self == *other,
                TokenCmp::Greater => other.le(*self) && *self != *other,
            },
    ;
}

/// Whether two tokens are equal, decided through the three-way comparison.
pub fn tokens_equal<T: Token>(a: &T, b: &T) -> (r: bool)
    ensures
        r == (a == b),
{
    match a.compare(b) {
        TokenCmp::Equal => true,
        _ => false,
    }
}

impl Token for u64 {
    open spec fn le(self, other: Self) -> bool {
        self <= other
    }

    proof fn le_transitive(x: Self, y: Self, z: Self) {
    }

    proof fn le_antisymmetric(x: Self, y: Self) {
    }

    proof fn le_total(x: Self, y: Self) {
    }

    fn compare(&self, other: &Self) -> (c: TokenCmp) {
        if *self < *other {
            TokenCmp::Less
        } else if *self == *other {
            TokenCmp::Equal
        } else {
            TokenCmp::Greater
        }
    }
}

impl Token for char {
    open spec fn le(self, other: Self) -> bool {
        (self as u32) <= (other as u32)
    }

    proof fn le_transitive(x: Self, y: Self, z: Self) {
    }

    proof fn le_antisymmetric(x: Self, y: Self) {
        vstd::utf8::char_u32_cast(x, x as u32);
        vstd::utf8::char_u32_cast(y, y as u32);
    }

    proof fn le_total(x: Self, y: Self) {
    }

    fn compare(&self, other: &Self) -> (c: TokenCmp) {
        if (*self as u32) < (*other as u32) {
            TokenCmp::Less
        } else if *self == *other {
            TokenCmp::Equal
        } else {
            TokenCmp::Greater
        }
    }
}

} // verus!
