//! The text of a scenario run's report: decimal numbers, the reason a run
//! stopped, the challenged indices, the dropped targets and the verdicts.

use crate::scenario::ChallengeFailure;
use vstd::prelude::*;

verus! {

/// The decimal digit for `d < 10`.
pub open spec fn digit_char(d: nat) -> char {
    (48 + d) as char
}

/// The decimal digits of `n`, most significant first, without leading zeros.
pub open spec fn decimal(n: nat) -> Seq<char>
    decreases n,
{
    if n < 10 {
        seq![digit_char(n)]
    } else {
        decimal(n / 10) + seq![digit_char(n % 10)]
    }
}

fn digit_str(d: usize) -> (r: &'static str)
    requires
        d < 10,
    ensures
        r@ == seq![digit_char(d as nat)],
{
    proof {
        reveal_strlit("0");
        reveal_strlit("1");
        reveal_strlit("2");
        reveal_strlit("3");
        reveal_strlit("4");
        reveal_strlit("5");
        reveal_strlit("6");
        reveal_strlit("7");
        reveal_strlit("8");
        reveal_strlit("9");
    }
    match d {
        0 => "0",
        1 => "1",
        2 => "2",
        3 => "3",
        4 => "4",
        5 => "5",
        6 => "6",
        7 => "7",
        8 => "8",
        _ => "9",
    }
}

/// Appends the decimal digits of `n`.
pub fn push_decimal(out: &mut String, n: usize)
    ensures
        final(out)@ == old(out)@ + decimal(n as nat),
    decreases n,
{
    if n >= 10 {
        push_decimal(out, n / 10);
    }
    out.append(digit_str(n % 10));
    proof {
        if n < 10 {
            assert(old(out)@ + decimal(n as nat) =~= old(out)@ + seq![digit_char(n as nat)]);
        } else {
            assert(old(out)@ + decimal(n as nat) =~= old(out)@ + decimal((n / 10) as nat) + seq![
                digit_char((n % 10) as nat),
            ]);
        }
    }
}

/// The reason recorded when building an epoch's steps stopped:
/// `missing_D_at_j`, `missing_S_at_k`, `missing_R_at_j` or
/// `invalid_merkle_at_j`.
pub open spec fn failure_reason_text(f: ChallengeFailure) -> Seq<char> {
    match f {
        ChallengeFailure::MissingRaw(j) => "missing_D_at_"@ + decimal(j as nat),
        ChallengeFailure::MissingState(k) => "missing_S_at_"@ + decimal(k as nat),
        ChallengeFailure::MissingReplica(j) => "missing_R_at_"@ + decimal(j as nat),
        ChallengeFailure::InvalidMerkle(j) => "invalid_merkle_at_"@ + decimal(j as nat),
    }
}

impl ChallengeFailure {
    /// The reason as recorded in the report.
    pub fn reason(&self) -> (r: String)
        ensures
            r@ == failure_reason_text(*self),
    {
        let mut out = String::new();
        match *self {
            ChallengeFailure::MissingRaw(j) => {
                out.append("missing_D_at_");
                push_decimal(&mut out, j);
            },
            ChallengeFailure::MissingState(k) => {
                out.append("missing_S_at_");
                push_decimal(&mut out, k);
            },
            ChallengeFailure::MissingReplica(j) => {
                out.append("missing_R_at_");
                push_decimal(&mut out, j);
            },
            ChallengeFailure::InvalidMerkle(j) => {
                out.append("invalid_merkle_at_");
                push_decimal(&mut out, j);
            },
        }
        proof {
            assert(Seq::<char>::empty() + failure_reason_text(*self) =~= failure_reason_text(*self));
        }
        out
    }
}

/// Numbers written in decimal, each prefixed by `tag` (possibly empty), and
/// joined by `;`.
pub open spec fn joined_text(tag: Seq<char>, ns: Seq<usize>) -> Seq<char>
    decreases ns.len(),
{
    if ns.len() == 0 {
        Seq::empty()
    } else if ns.len() == 1 {
        tag + decimal(ns[0] as nat)
    } else {
        joined_text(tag, ns.drop_last()) + ";"@ + tag + decimal(ns.last() as nat)
    }
}

fn push_joined(out: &mut String, tag: &str, ns: &[usize])
    ensures
        final(out)@ == old(out)@ + joined_text(tag@, ns@),
{
    for i in 0..ns.len()
        invariant
            out@ == old(out)@ + joined_text(tag@, ns@.take(i as int)),
    {
        let ghost before = out@;
        if i > 0 {
            out.append(";");
        }
        out.append(tag);
        push_decimal(out, ns[i]);
        proof {
            let t = ns@.take(i + 1);
            assert(t.drop_last() =~= ns@.take(i as int));
            if i == 0 {
                assert(ns@.take(0) =~= Seq::<usize>::empty());
                assert(out@ =~= old(out)@ + joined_text(tag@, t));
            } else {
                assert(out@ =~= old(out)@ + joined_text(tag@, t));
            }
        }
    }
    proof {
        assert(ns@.take(ns@.len() as int) =~= ns@);
    }
}

/// The challenged indices as recorded: decimal numbers joined by `;`.
pub fn indices_text(indices: &[usize]) -> (r: String)
    ensures
        r@ == joined_text(Seq::empty(), indices@),
{
    let mut out = String::new();
    let empty = "";
    proof {
        reveal_strlit("");
        assert(empty@ =~= Seq::<char>::empty());
    }
    push_joined(&mut out, empty, indices);
    proof {
        assert(Seq::<char>::empty() + joined_text(Seq::empty(), indices@) =~= joined_text(Seq::empty(), indices@));
    }
    out
}

/// The dropped targets as recorded: `R<j>` for each dropped raw chunk, then
/// `S<k>` for each dropped state, all joined by `;`.
pub fn drop_targets_text(raw: &[usize], states: &[usize]) -> (r: String)
    ensures
        r@ == (if raw@.len() == 0 {
            joined_text("S"@, states@)
        } else if states@.len() == 0 {
            joined_text("R"@, raw@)
        } else {
            joined_text("R"@, raw@) + ";"@ + joined_text("S"@, states@)
        }),
{
    let mut out = String::new();
    push_joined(&mut out, "R", raw);
    if raw.len() > 0 && states.len() > 0 {
        out.append(";");
    }
    push_joined(&mut out, "S", states);
    proof {
        if raw@.len() == 0 {
            assert(joined_text("R"@, raw@) =~= Seq::<char>::empty());
        }
        if states@.len() == 0 {
            assert(joined_text("S"@, states@) =~= Seq::<char>::empty());
        }
        assert(out@ =~= (if raw@.len() == 0 {
            joined_text("S"@, states@)
        } else if states@.len() == 0 {
            joined_text("R"@, raw@)
        } else {
            joined_text("R"@, raw@) + ";"@ + joined_text("S"@, states@)
        }));
    }
    out
}

/// The description of an epoch's challenge seed:
/// `beacon:<hash>|sector:<id>|epoch:<epoch>`.
pub fn challenge_seed_text(epoch_hash: &str, sector_id: u64, epoch: usize) -> (r: String)
    requires
        sector_id <= usize::MAX,
    ensures
        r@ == "beacon:"@ + epoch_hash@ + "|sector:"@ + decimal(sector_id as nat) + "|epoch:"@ + decimal(epoch as nat),
{
    let mut out = String::new();
    out.append("beacon:");
    out.append(epoch_hash);
    out.append("|sector:");
    push_decimal(&mut out, sector_id as usize);
    out.append("|epoch:");
    push_decimal(&mut out, epoch);
    proof {
        assert(out@ =~= "beacon:"@ + epoch_hash@ + "|sector:"@ + decimal(sector_id as nat) + "|epoch:"@ + decimal(
            epoch as nat,
        ));
    }
    out
}

/// Whether the proof's epoch is the one the verifier checks against.
pub fn epoch_status(proof_epoch: usize, verify_epoch: usize) -> (r: &'static str)
    ensures
        r@ == (if proof_epoch == verify_epoch {
            "Epoch_Valid"@
        } else {
            "Epoch_Mismatch"@
        }),
{
    if proof_epoch == verify_epoch {
        "Epoch_Valid"
    } else {
        "Epoch_Mismatch"
    }
}

/// The verdict of a verification.
pub fn verify_status(is_valid: bool) -> (r: &'static str)
    ensures
        r@ == (if is_valid {
            "Valid"@
        } else {
            "Invalid"@
        }),
{
    if is_valid {
        "Valid"
    } else {
        "Invalid"
    }
}

/// The status recorded when the prover could not build its steps:
/// `Prover_Failed(<reason>)`.
pub fn prover_failed_status(f: &ChallengeFailure) -> (r: String)
    ensures
        r@ == "Prover_Failed("@ + failure_reason_text(*f) + ")"@,
{
    let mut out = String::new();
    out.append("Prover_Failed(");
    let reason = f.reason();
    out.append(reason.as_str());
    out.append(")");
    proof {
        assert(out@ =~= "Prover_Failed("@ + failure_reason_text(*f) + ")"@);
    }
    out
}

} // verus!
