//! The sliding window that turns the tokens of a record into its n-grams.

use vstd::prelude::*;
use std::collections::VecDeque;
use crate::ngrams::counter::NgramKey;

verus! {

/// The n-grams of `tokens`, in the order in which the window meets them:
/// every run of `n` consecutive tokens. There is none for `n = 0`.
pub open spec fn windows(tokens: Seq<Seq<char>>, n: nat) -> Seq<NgramKey> {
    if n == 0 || tokens.len() < n {
        Seq::empty()
    } else {
        Seq::new((tokens.len() - n + 1) as nat, |p: int| tokens.subrange(p, p + n))
    }
}

/// How many n-grams are complete once `i` tokens have been read.
pub open spec fn complete(i: int, n: nat) -> int {
    if n == 0 || i < n {
        0
    } else {
        i - n + 1
    }
}

/// The window once `i` tokens have been read: the last `n` of them, or
/// all of them while there are fewer.
pub open spec fn window_after(tokens: Seq<Seq<char>>, i: int, n: nat) -> Seq<Seq<char>> {
    tokens.subrange(
        if i > n {
            i - n
        } else {
            0
        },
        i,
    )
}

/// The window after `token` entered it: the last `n` of what it held and
/// the token.
pub open spec fn slid(window: Seq<Seq<char>>, token: Seq<char>, n: nat) -> Seq<Seq<char>> {
    let longer = window.push(token);
    if longer.len() > n {
        longer.subrange(longer.len() - n, longer.len() as int)
    } else {
        longer
    }
}

/// Reading one more token slides the window by one, and once `n` tokens
/// have been read each step completes the next n-gram.
pub proof fn lemma_slide(tokens: Seq<Seq<char>>, i: int, n: nat)
    requires
        0 <= i < tokens.len(),
    ensures
        slid(window_after(tokens, i, n), tokens[i], n) == window_after(tokens, i + 1, n),
        complete(i + 1, n) <= windows(tokens, n).len(),
        complete(i + 1, n) == complete(i, n) + if n > 0 && i + 1 >= n {
            1int
        } else {
            0int
        },
        n > 0 && i + 1 >= n ==> windows(tokens, n)[complete(i, n)] == window_after(tokens, i + 1, n),
        window_after(tokens, i + 1, n).len() == if i + 1 > n {
            n as int
        } else {
            i + 1
        },
{
    assert(slid(window_after(tokens, i, n), tokens[i], n) =~= window_after(tokens, i + 1, n));
    if n > 0 && i + 1 >= n {
        assert(windows(tokens, n)[complete(i, n)] =~= window_after(tokens, i + 1, n));
    }
}

/// Once every token has been read every n-gram is complete.
pub proof fn lemma_complete_all(tokens: Seq<Seq<char>>, n: nat)
    ensures
        complete(tokens.len() as int, n) == windows(tokens, n).len(),
{
}

/// Lets `token` enter the window, which keeps at most the last `n` tokens,
/// and says whether the window now holds an n-gram.
pub fn slide(window: &mut VecDeque<String>, token: &String, n: usize) -> (full: bool)
    ensures
        final(window).deep_view() == slid(old(window).deep_view(), token@, n as nat),
        full == (n > 0 && final(window)@.len() == n),
{
    let ghost before = window.deep_view();
    while window.len() > 0 && window.len() >= n
        invariant
            window@.len() <= before.len(),
            window@.len() == before.len() || window@.len() + 1 >= n,
            window.deep_view() == before.subrange(before.len() - window@.len(), before.len() as int),
        decreases window@.len(),
    {
        let ghost here = window.deep_view();
        window.pop_front();
        assert(window.deep_view() =~= here.drop_first());
        assert(window.deep_view() =~= before.subrange(
            before.len() - window@.len(),
            before.len() as int,
        ));
    }
    if n > 0 {
        let ghost here = window.deep_view();
        window.push_back(token.clone());
        assert(window.deep_view() =~= here.push(token@));
    }
    assert(window.deep_view() =~= slid(before, token@, n as nat));
    n > 0 && window.len() == n
}

} // verus!
