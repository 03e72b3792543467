//! Text as the file system sees it: prefixes of names, and numbers in
//! decimal digits.

use vstd::prelude::*;
use vstd::string::StringExecFns;
use vstd::utf8::{
    char_u32_cast, decode_first_scalar, encode_scalar, encode_utf8, encode_utf8_first_scalar,
    length_of_first_scalar,
};

verus! {

// ---------------------------------------------------------------------------
// Prefixes
// ---------------------------------------------------------------------------

/// The bytes of two texts, one behind the other, are the bytes of the texts
/// one behind the other.
pub proof fn lemma_utf8_concat(a: Seq<char>, b: Seq<char>)
    ensures
        encode_utf8(a + b) == encode_utf8(a) + encode_utf8(b),
    decreases a.len(),
{
    if a.len() == 0 {
        assert(a + b =~= b);
        assert(encode_utf8(a) + encode_utf8(b) =~= encode_utf8(b));
    } else {
        lemma_utf8_concat(a.drop_first(), b);
        assert((a + b).drop_first() =~= a.drop_first() + b);
        assert(encode_utf8(a + b) =~= encode_utf8(a) + encode_utf8(b));
    }
}

/// Where the bytes of one text begin the bytes of another, the text begins
/// the other.
pub proof fn lemma_utf8_prefix(prefix: Seq<char>, text: Seq<char>)
    requires
        encode_utf8(prefix).is_prefix_of(encode_utf8(text)),
    ensures
        prefix.is_prefix_of(text),
    decreases prefix.len(),
{
    if prefix.len() > 0 {
        let bp = encode_utf8(prefix);
        let bt = encode_utf8(text);
        encode_utf8_first_scalar(prefix);
        assert(bp.len() >= length_of_first_scalar(bp) >= 1);
        assert(text.len() > 0);
        encode_utf8_first_scalar(text);
        assert forall|i: int| 0 <= i < bp.len() implies bp[i] == bt[i] by {
            assert(bt.subrange(0, bp.len() as int)[i] == bt[i]);
        }
        assert(bp[0] == bt[0]);
        assert(decode_first_scalar(bp) == decode_first_scalar(bt));
        char_u32_cast(prefix[0], prefix[0] as u32);
        char_u32_cast(text[0], text[0] as u32);
        assert(prefix[0] == text[0]);
        let head = encode_scalar(prefix[0] as u32);
        let rest_p = encode_utf8(prefix.drop_first());
        let rest_t = encode_utf8(text.drop_first());
        assert(bp == head + rest_p);
        assert(bt == head + rest_t);
        assert forall|i: int| 0 <= i < rest_p.len() implies rest_p[i] == rest_t[i] by {
            assert(bp[head.len() + i] == rest_p[i]);
            assert(bt[head.len() + i] == rest_t[i]);
        }
        assert(rest_p =~= rest_t.subrange(0, rest_p.len() as int));
        lemma_utf8_prefix(prefix.drop_first(), text.drop_first());
        assert forall|i: int| 0 <= i < prefix.len() implies prefix[i] == text[i] by {
            if i > 0 {
                assert(prefix.drop_first()[i - 1] == text.drop_first().subrange(
                    0,
                    prefix.len() - 1,
                )[i - 1]);
            }
        }
        assert(prefix =~= text.subrange(0, prefix.len() as int));
    }
}

/// Whether `text` begins with `prefix`.
pub fn starts_with(text: &str, prefix: &str) -> (r: bool)
    ensures
        r == prefix@.is_prefix_of(text@),
{
    let t = text.as_bytes();
    let p = prefix.as_bytes();
    if t.len() < p.len() {
        proof {
            if prefix@.is_prefix_of(text@) {
                let rest = text@.subrange(prefix@.len() as int, text@.len() as int);
                assert(text@ =~= prefix@ + rest);
                lemma_utf8_concat(prefix@, rest);
            }
        }
        return false;
    }
    let mut i: usize = 0;
    while i < p.len()
        invariant
            i <= p.len() <= t.len(),
            t@ == encode_utf8(text@),
            p@ == encode_utf8(prefix@),
            forall|j: int| 0 <= j < i ==> t@[j] == p@[j],
        decreases p.len() - i,
    {
        if t[i] != p[i] {
            proof {
                if prefix@.is_prefix_of(text@) {
                    let rest = text@.subrange(prefix@.len() as int, text@.len() as int);
                    assert(text@ =~= prefix@ + rest);
                    lemma_utf8_concat(prefix@, rest);
                    assert(t@[i as int] == (p@ + encode_utf8(rest))[i as int]);
                }
            }
            return false;
        }
        i += 1;
    }
    proof {
        assert(p@ =~= t@.subrange(0, p@.len() as int));
        lemma_utf8_prefix(prefix@, text@);
    }
    true
}

// ---------------------------------------------------------------------------
// Decimal numbers
// ---------------------------------------------------------------------------

/// The digit for a value below ten.
pub open spec fn digit(d: int) -> char {
    if d == 0 {
        '0'
    } else if d == 1 {
        '1'
    } else if d == 2 {
        '2'
    } else if d == 3 {
        '3'
    } else if d == 4 {
        '4'
    } else if d == 5 {
        '5'
    } else if d == 6 {
        '6'
    } else if d == 7 {
        '7'
    } else if d == 8 {
        '8'
    } else {
        '9'
    }
}

/// The decimal digits of a number, without leading zeros.
pub open spec fn decimal(n: nat) -> Seq<char>
    decreases n,
{
    if n < 10 {
        seq![digit(n as int)]
    } else {
        decimal(n / 10).push(digit((n % 10) as int))
    }
}

/// The digit for a value below ten, as text.
fn digit_text(d: u8) -> (text: &'static str)
    requires
        d < 10,
    ensures
        text@ == seq![digit(d as int)],
{
    proof {
        reveal_strlit("0");
        reveal_strlit("1");
        reveal_strlit("2");
        reveal_strlit("3");
        reveal_strlit("4");
        reveal_strlit("5");
        reveal_strlit("6");
        reveal_strlit("7");
        reveal_strlit("8");
        reveal_strlit("9");
    }
    let text = if d == 0 {
        "0"
    } else if d == 1 {
        "1"
    } else if d == 2 {
        "2"
    } else if d == 3 {
        "3"
    } else if d == 4 {
        "4"
    } else if d == 5 {
        "5"
    } else if d == 6 {
        "6"
    } else if d == 7 {
        "7"
    } else if d == 8 {
        "8"
    } else {
        "9"
    };
    assert(text@ =~= seq![digit(d as int)]);
    text
}

/// The number in decimal digits.
pub fn decimal_string(n: u64) -> (text: String)
    ensures
        text@ == decimal(n as nat),
{
    let mut low: Vec<u8> = Vec::new();
    let mut rest: u64 = n;
    while rest >= 10
        invariant
            forall|j: int| 0 <= j < low@.len() ==> low@[j] < 10,
            decimal(n as nat) == decimal(rest as nat) + Seq::new(
                low@.len(),
                |j: int| digit(low@[low@.len() - 1 - j] as int),
            ),
        decreases rest,
    {
        let d = (rest % 10) as u8;
        proof {
            let before = Seq::new(low@.len(), |j: int| digit(low@[low@.len() - 1 - j] as int));
            let pushed = low@.push(d);
            let after = Seq::new(pushed.len(), |j: int| digit(pushed[pushed.len() - 1 - j] as int));
            assert(after =~= seq![digit(d as int)] + before);
            assert(decimal(rest as nat) == decimal((rest / 10) as nat).push(digit(d as int)));
            assert(decimal((rest / 10) as nat).push(digit(d as int)) + before =~= decimal(
                (rest / 10) as nat,
            ) + after);
        }
        low.push(d);
        rest = rest / 10;
    }
    let mut text = String::from_str(digit_text(rest as u8));
    let ghost tail = Seq::new(low@.len(), |j: int| digit(low@[low@.len() - 1 - j] as int));
    let mut i: usize = low.len();
    proof {
        assert(text@ =~= decimal(rest as nat) + tail.take(0));
    }
    while i > 0
        invariant
            i <= low@.len(),
            forall|j: int| 0 <= j < low@.len() ==> low@[j] < 10,
            tail == Seq::new(low@.len(), |j: int| digit(low@[low@.len() - 1 - j] as int)),
            text@ == decimal(rest as nat) + tail.take(low@.len() - i),
        decreases i,
    {
        i -= 1;
        proof {
            let k = low@.len() - 1 - i;
            assert(tail[k] == digit(low@[i as int] as int));
            assert(tail.take(k + 1) =~= tail.take(k).push(tail[k]));
            assert(decimal(rest as nat) + tail.take(k) + seq![tail[k]] =~= decimal(rest as nat)
                + tail.take(k + 1));
        }
        text.append(digit_text(low[i]));
    }
    proof {
        assert(tail.take(low@.len() as int) =~= tail);
    }
    text
}

} // verus!
