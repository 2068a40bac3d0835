//! The debug trace of a served slate: which viewers are traced and the line logged.
use vstd::prelude::*;
use vstd::string::*;
use crate::candidate::PostCandidate;

verus! {

/// The character of a decimal digit.
pub open spec fn digit_char(d: nat) -> char {
    if d == 0 {
        '0'
    } else if d == 1 {
        '1'
    } else if d == 2 {
        '2'
    } else if d == 3 {
        '3'
    } else if d == 4 {
        '4'
    } else if d == 5 {
        '5'
    } else if d == 6 {
        '6'
    } else if d == 7 {
        '7'
    } else if d == 8 {
        '8'
    } else {
        '9'
    }
}

/// The decimal notation of `n`, without leading zeros.
pub open spec fn decimal(n: nat) -> Seq<char>
    decreases n,
{
    if n < 10 {
        seq![digit_char(n)]
    } else {
        decimal(n / 10) + seq![digit_char(n % 10)]
    }
}

/// One post in the trace: `post=<id> author=<id>`, then ` explain=<text>` when the
/// post carries a score explanation.
pub open spec fn post_entry(c: PostCandidate) -> Seq<char> {
    "post="@ + decimal(c.tweet_id as nat) + " author="@ + decimal(c.author_id as nat) + match c.score_explain {
        Some(e) => " explain="@ + e@,
        None => Seq::empty(),
    }
}

/// The entries of the posts, separated by `, `.
pub open spec fn joined_entries(s: Seq<PostCandidate>) -> Seq<char>
    decreases s.len(),
{
    if s.len() == 0 {
        Seq::empty()
    } else if s.len() == 1 {
        post_entry(s[0])
    } else {
        joined_entries(s.drop_last()) + ", "@ + post_entry(s.last())
    }
}

/// The logged line: `debug_side_effect: viewer=<id> [<entries>]`.
pub open spec fn spec_debug_line(viewer: u64, s: Seq<PostCandidate>) -> Seq<char> {
    "debug_side_effect: viewer="@ + decimal(viewer as nat) + " ["@ + joined_entries(s) + "]"@
}

fn digit_str(d: u64) -> (r: &'static str)
    requires
        d < 10,
    ensures
        r@ == seq![digit_char(d as nat)],
{
    proof {
        reveal_strlit("0");
        reveal_strlit("1");
        reveal_strlit("2");
        reveal_strlit("3");
        reveal_strlit("4");
        reveal_strlit("5");
        reveal_strlit("6");
        reveal_strlit("7");
        reveal_strlit("8");
        reveal_strlit("9");
    }
    if d == 0 {
        "0"
    } else if d == 1 {
        "1"
    } else if d == 2 {
        "2"
    } else if d == 3 {
        "3"
    } else if d == 4 {
        "4"
    } else if d == 5 {
        "5"
    } else if d == 6 {
        "6"
    } else if d == 7 {
        "7"
    } else if d == 8 {
        "8"
    } else {
        "9"
    }
}

/// Appends the decimal notation of `n`.
fn push_decimal(out: &mut String, n: u64)
    ensures
        final(out)@ == old(out)@ + decimal(n as nat),
    decreases n,
{
    if n >= 10 {
        push_decimal(out, n / 10);
    }
    out.append(digit_str(n % 10));
    proof {
        if n >= 10 {
            assert(decimal(n as nat) == decimal((n / 10) as nat) + seq![digit_char((n % 10) as nat)]);
        }
    }
}

fn push_entry(out: &mut String, c: &PostCandidate)
    ensures
        final(out)@ == old(out)@ + post_entry(*c),
{
    let ghost start = out@;
    out.append("post=");
    push_decimal(out, c.tweet_id);
    out.append(" author=");
    push_decimal(out, c.author_id);
    match &c.score_explain {
        Some(e) => {
            out.append(" explain=");
            out.append(e.as_str());
        },
        None => {},
    }
    assert(out@ =~= start + post_entry(*c));
}

/// Logs the served slate of traced viewers.
#[derive(Clone, Copy, Debug)]
pub struct DebugSideEffect;

impl DebugSideEffect {
    /// Whether the viewer is one of the traced users.
    pub fn traces(&self, trace_user_ids: &[u64], user_id: u64) -> (r: bool)
        ensures
            r == trace_user_ids@.contains(user_id),
    {
        for i in 0..trace_user_ids.len()
            invariant
                forall|j: int| 0 <= j < i ==> trace_user_ids@[j] != user_id,
        {
            if trace_user_ids[i] == user_id {
                return true;
            }
        }
        false
    }

    /// The line logged for a traced viewer and the selected posts.
    pub fn debug_line(&self, user_id: u64, candidates: &[PostCandidate]) -> (line: String)
        ensures
            line@ == spec_debug_line(user_id, candidates@),
    {
        let mut out = String::new();
        out.append("debug_side_effect: viewer=");
        push_decimal(&mut out, user_id);
        out.append(" [");
        let ghost head = out@;
        for i in 0..candidates.len()
            invariant
                out@ == head + joined_entries(candidates@.take(i as int)),
        {
            let ghost before = out@;
            if i > 0 {
                out.append(", ");
            }
            push_entry(&mut out, &candidates[i]);
            proof {
                let t = candidates@.take(i + 1);
                assert(t.drop_last() =~= candidates@.take(i as int));
                if i == 0 {
                    assert(joined_entries(t) == post_entry(t[0]));
                    assert(joined_entries(candidates@.take(0)) =~= Seq::<char>::empty());
                }
                assert(out@ =~= head + joined_entries(t));
            }
        }
        assert(candidates@.take(candidates@.len() as int) =~= candidates@);
        out.append("]");
        out
    }
}

} // verus!
