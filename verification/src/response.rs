//! The JSON answers for each fraud level, the level being the score in fifths.
use vstd::prelude::*;
use vstd::string::StringExecFns;

verus! {

/// The character of a decimal digit.
pub open spec fn digit_char(d: int) -> char {
    (48 + d) as char
}

/// The decimal text of `n`.
pub open spec fn decimal(n: nat) -> Seq<char>
    decreases n,
{
    if n < 10 {
        seq![digit_char(n as int)]
    } else {
        decimal(n / 10) + seq![digit_char((n % 10) as int)]
    }
}

/// The text of a decimal digit.
pub fn digit_text(d: u128) -> (r: &'static str)
    requires
        d < 10,
    ensures
        r@ == seq![digit_char(d as int)],
{
    proof {
        reveal_strlit("0");
        reveal_strlit("1");
        reveal_strlit("2");
        reveal_strlit("3");
        reveal_strlit("4");
        reveal_strlit("5");
        reveal_strlit("6");
        reveal_strlit("7");
        reveal_strlit("8");
        reveal_strlit("9");
    }
    let r = if d == 0 {
        "0"
    } else if d == 1 {
        "1"
    } else if d == 2 {
        "2"
    } else if d == 3 {
        "3"
    } else if d == 4 {
        "4"
    } else if d == 5 {
        "5"
    } else if d == 6 {
        "6"
    } else if d == 7 {
        "7"
    } else if d == 8 {
        "8"
    } else {
        "9"
    };
    assert(r@ =~= seq![digit_char(d as int)]);
    r
}

/// Appends the decimal text of `value`.
pub fn push_decimal(out: &mut String, value: u128)
    ensures
        final(out)@ == old(out)@ + decimal(value as nat),
    decreases value,
{
    if value >= 10 {
        push_decimal(out, value / 10);
    }
    out.append(digit_text(value % 10));
    proof {
        if value >= 10 {
            assert(decimal(value as nat) == decimal((value / 10) as nat) + seq![digit_char((value % 10) as int)]);
        }
    }
    assert(out@ =~= old(out)@ + decimal(value as nat));
}

/// A fraud level (fifths of one) written with one decimal: `0.0` to `1.0`.
pub open spec fn score_text(level: nat) -> Seq<char> {
    decimal(2 * level / 10) + seq!['.'] + decimal(2 * level % 10)
}

/// A fraud level (fifths of one) is approved below three fifths.
pub open spec fn spec_approved(level: nat) -> bool {
    level < 3
}

/// Whether a fraud level is approved.
pub fn approved(level: u8) -> (r: bool)
    ensures
        r == spec_approved(level as nat),
{
    level < 3
}

/// The JSON answer: approved below three fifths, with the score.
pub open spec fn fraud_json(level: nat) -> Seq<char> {
    "{\"approved\":"@ + (if spec_approved(level) {
        "true"@
    } else {
        "false"@
    }) + ",\"fraud_score\":"@ + score_text(level) + "}"@
}

/// The JSON answer for a fraud level.
pub fn fraud_response(level: u8) -> (r: &'static str)
    requires
        level <= 5,
    ensures
        r@ == fraud_json(level as nat),
{
    proof {
        reveal_strlit("{\"approved\":");
        reveal_strlit("true");
        reveal_strlit("false");
        reveal_strlit(",\"fraud_score\":");
        reveal_strlit("}");
        reveal_with_fuel(decimal, 2);
    }
    if level == 0 {
        proof { reveal_strlit("{\"approved\":true,\"fraud_score\":0.0}"); }
        assert("{\"approved\":true,\"fraud_score\":0.0}"@ =~= fraud_json(0));
        "{\"approved\":true,\"fraud_score\":0.0}"
    } else if level == 1 {
        proof { reveal_strlit("{\"approved\":true,\"fraud_score\":0.2}"); }
        assert("{\"approved\":true,\"fraud_score\":0.2}"@ =~= fraud_json(1));
        "{\"approved\":true,\"fraud_score\":0.2}"
    } else if level == 2 {
        proof { reveal_strlit("{\"approved\":true,\"fraud_score\":0.4}"); }
        assert("{\"approved\":true,\"fraud_score\":0.4}"@ =~= fraud_json(2));
        "{\"approved\":true,\"fraud_score\":0.4}"
    } else if level == 3 {
        proof { reveal_strlit("{\"approved\":false,\"fraud_score\":0.6}"); }
        assert("{\"approved\":false,\"fraud_score\":0.6}"@ =~= fraud_json(3));
        "{\"approved\":false,\"fraud_score\":0.6}"
    } else if level == 4 {
        proof { reveal_strlit("{\"approved\":false,\"fraud_score\":0.8}"); }
        assert("{\"approved\":false,\"fraud_score\":0.8}"@ =~= fraud_json(4));
        "{\"approved\":false,\"fraud_score\":0.8}"
    } else {
        proof { reveal_strlit("{\"approved\":false,\"fraud_score\":1.0}"); }
        assert("{\"approved\":false,\"fraud_score\":1.0}"@ =~= fraud_json(5));
        "{\"approved\":false,\"fraud_score\":1.0}"
    }
}

} // verus!
