use vstd::prelude::*;

verus! {

/// The literal that opens a private command: `/msg ` (with its space).
pub open spec fn command_prefix() -> Seq<char> {
    seq!['/', 'm', 's', 'g', ' ']
}

pub open spec fn is_digit(c: char) -> bool {
    '0' <= c && c <= '9'
}

pub open spec fn all_digits(s: Seq<char>) -> bool {
    forall|i: int| 0 <= i < s.len() ==> is_digit(#[trigger] s[i])
}

/// Value of a run of decimal digits, most significant first.
pub open spec fn digits_value(s: Seq<char>) -> nat
    decreases s.len(),
{
    if s.len() == 0 {
        0
    } else {
        digits_value(s.drop_last()) * 10 + ((s.last() as u32 - '0' as u32) as nat)
    }
}

/// Index of the first space at or after `i`, or `s.len()` when there is none.
pub open spec fn space_from(s: Seq<char>, i: int) -> int
    decreases s.len() - i,
{
    if i >= s.len() {
        s.len() as int
    } else if s[i] == ' ' {
        i
    } else {
        space_from(s, i + 1)
    }
}

/// Classification of one line: `Some((target, payload))` for a private
/// command `/msg <digits> <payload>`, `None` for anything else. The line is
/// split at single spaces into at most three parts, so the payload keeps its
/// own spaces; a target that is empty, holds a non-digit or exceeds
/// `usize::MAX` makes the line an ordinary one.
pub open spec fn private_command(s: Seq<char>) -> Option<(nat, Seq<char>)> {
    let p = command_prefix().len() as int;
    if s.len() >= p && s.subrange(0, p) == command_prefix() {
        let j = space_from(s, p);
        let target = s.subrange(p, j);
        if j < s.len() && target.len() > 0 && all_digits(target) && digits_value(target)
            <= usize::MAX {
            Some((digits_value(target), s.subrange(j + 1, s.len() as int)))
        } else {
            None
        }
    } else {
        None
    }
}

proof fn lemma_space_from_eq(s: Seq<char>, i: int, j: int)
    requires
        0 <= i <= j <= s.len(),
        forall|k: int| i <= k < j ==> s[k] != ' ',
        j == s.len() || s[j] == ' ',
    ensures
        space_from(s, i) == j,
    decreases j - i,
{
    if i < j {
        lemma_space_from_eq(s, i + 1, j);
    }
}

/// A longer run of digits is worth at least as much as its prefix.
proof fn lemma_digits_prefix(s: Seq<char>, k: int)
    requires
        0 <= k <= s.len(),
        all_digits(s),
    ensures
        digits_value(s.subrange(0, k)) <= digits_value(s),
    decreases s.len() - k,
{
    if k < s.len() {
        let t = s.drop_last();
        assert(all_digits(t)) by {
            assert forall|i: int| 0 <= i < t.len() implies is_digit(#[trigger] t[i]) by {
                assert(t[i] == s[i]);
            }
        }
        lemma_digits_prefix(t, k);
        assert(t.subrange(0, k) =~= s.subrange(0, k));
    } else {
        assert(s.subrange(0, k) =~= s);
    }
}

/// Parses a private command `/msg <target> <payload>`.
pub fn parse_private_message(input: &str) -> (r: Option<(usize, String)>)
    ensures
        match private_command(input@) {
            Some((t, p)) => r matches Some((rt, rp)) && rt as nat == t && rp@ == p,
            None => r is None,
        },
{
    let ghost s = input@;
    let n = input.unicode_len();
    proof {
        assert(command_prefix().len() == 5);
    }
    if n < 5 || input.get_char(0) != '/' || input.get_char(1) != 'm' || input.get_char(2) != 's'
        || input.get_char(3) != 'g' || input.get_char(4) != ' ' {
        proof {
            if n >= 5 {
                assert(s.subrange(0, 5)[0] == s[0]);
                assert(s.subrange(0, 5)[1] == s[1]);
                assert(s.subrange(0, 5)[2] == s[2]);
                assert(s.subrange(0, 5)[3] == s[3]);
                assert(s.subrange(0, 5)[4] == s[4]);
            }
        }
        return None;
    }
    assert(s.subrange(0, 5) =~= command_prefix());
    // find the space that ends the target
    let mut j: usize = 5;
    while j < n && input.get_char(j) != ' '
        invariant
            5 <= j <= n,
            n == s.len(),
            s == input@,
            forall|k: int| 5 <= k < j ==> s[k] != ' ',
        decreases n - j,
    {
        j = j + 1;
    }
    proof {
        lemma_space_from_eq(s, 5, j as int);
    }
    let ghost target = s.subrange(5, j as int);
    if j == n || j == 5 {
        return None;
    }
    let mut v: usize = 0;
    let mut i: usize = 5;
    while i < j
        invariant
            5 <= i <= j < n,
            n == s.len(),
            s == input@,
            target == s.subrange(5, j as int),
            space_from(s, 5) == j,
            s.subrange(0, 5) == command_prefix(),
            all_digits(s.subrange(5, i as int)),
            v as nat == digits_value(s.subrange(5, i as int)),
        decreases j - i,
    {
        let c = input.get_char(i);
        let ghost pre = s.subrange(5, i as int);
        let ghost next = s.subrange(5, i + 1);
        assert(next.drop_last() =~= pre);
        assert(next.last() == c);
        if c < '0' || c > '9' {
            assert(target[i - 5] == c);
            return None;
        }
        let d: usize = (c as u32 - '0' as u32) as usize;
        if v > (usize::MAX - d) / 10 {
            proof {
                assert(all_digits(next));
                assert(digits_value(next) > usize::MAX) by (nonlinear_arith)
                    requires
                        digits_value(next) == v * 10 + d,
                        v > (usize::MAX - d) / 10,
                        d < 10,
                ;
                if all_digits(target) {
                    assert(target.subrange(0, i + 1 - 5) =~= next);
                    lemma_digits_prefix(target, i + 1 - 5);
                }
            }
            return None;
        }
        v = v * 10 + d;
        i = i + 1;
    }
    assert(s.subrange(5, i as int) =~= target);
    let payload = String::from_str(input.substring_char(j + 1, n));
    Some((v, payload))
}

} // verus!
