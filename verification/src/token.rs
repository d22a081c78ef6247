//! End tokens and the mint that issues them.

use vstd::prelude::*;

verus! {

/// Correlates the end of a leaf with the activation that started it.
///
/// The number carries no meaning beyond identity: two tokens are the same
/// activation exactly when their numbers are equal.
#[derive(Clone, Copy, Debug, PartialEq, Eq, Structural, Hash)]
pub struct EndToken {
    pub serial: u64,
}

/// Issues end tokens, each one different from all it issued before.
#[derive(Debug)]
pub struct TokenMint {
    next: u64,
}

/// The tokens handed out by the first `n` calls of [`TokenMint::mint`], in
/// the order of the calls.
pub open spec fn minted(n: nat) -> Seq<EndToken> {
    Seq::new(n, |i: int| EndToken { serial: i as u64 })
}

impl TokenMint {
    /// How many tokens this mint has issued.
    pub closed spec fn issued(&self) -> nat {
        self.next as nat
    }

    /// The token that the next call of [`TokenMint::mint`] returns.
    pub open spec fn upcoming(&self) -> EndToken {
        EndToken { serial: self.issued() as u64 }
    }

    /// Whether the mint has run out of numbers.
    pub open spec fn exhausted(&self) -> bool {
        self.issued() >= u64::MAX
    }

    /// A mint that has issued nothing yet.
    pub fn new() -> (mint: TokenMint)
        ensures
            mint.issued() == 0,
    {
        TokenMint { next: 0 }
    }

    /// How many tokens this mint has issued.
    pub fn count(&self) -> (n: u64)
        ensures
            n == self.issued(),
    {
        self.next
    }

    /// Whether [`TokenMint::mint`] may no longer be called.
    pub fn is_exhausted(&self) -> (b: bool)
        ensures
            b == self.exhausted(),
    {
        self.next == u64::MAX
    }

    /// Issues the next token.
    pub fn mint(&mut self) -> (token: EndToken)
        requires
            !old(self).exhausted(),
        ensures
            token == old(self).upcoming(),
            token.serial == old(self).issued(),
            final(self).issued() == old(self).issued() + 1,
            minted(final(self).issued()) == minted(old(self).issued()).push(token),
    {
        let token = EndToken { serial: self.next };
        self.next = self.next + 1;
        assert(minted(self.issued()) =~= minted(old(self).issued()).push(token));
        token
    }
}

/// However many activations a mint has served, no two of them share a token:
/// the first `n` tokens are `n` distinct values.
pub proof fn lemma_minted_tokens_are_distinct(n: nat)
    requires
        n <= u64::MAX,
    ensures
        minted(n).len() == n,
        minted(n).no_duplicates(),
        minted(n).to_set().len() == n,
{
    let s = minted(n);
    assert forall|i: int, j: int| 0 <= i < s.len() && 0 <= j < s.len() && i != j implies s[i]
        != s[j] by {
        assert(s[i].serial == i);
        assert(s[j].serial == j);
    }
    s.unique_seq_to_set();
}

} // verus!
