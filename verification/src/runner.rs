//! Running an agent prompt through the agent command line program: what
//! the finished process means. Spawning the process is the caller's part.
use crate::text::{decimal, decimal_string, join, join_upto, own, str_eq, trim_end, trim_end_spec};
use vstd::prelude::*;

verus! {

/// What an agent run produced.
pub struct AgentResult {
    pub stdout: String,
}

/// What a shell command produced: its exit code (-1 where a signal ended
/// it) and its captured output.
pub struct RunResult {
    pub exit_code: i32,
    pub stdout: String,
    pub stderr: String,
}

/// How a finished prompt process ended: its exit code (`None` where a
/// signal ended it) and its captured output.
pub struct PromptOutcome {
    pub exit_code: Option<i32>,
    pub stdout: String,
    pub stderr: String,
}

/// Decimal notation of a signed integer.
pub open spec fn signed_decimal(i: int) -> Seq<char> {
    if i < 0 {
        seq!['-'] + decimal((-i) as nat)
    } else {
        decimal(i as nat)
    }
}

/// The exit code reported for a run; a run ended by a signal counts as -1.
pub open spec fn exit_code_of(o: PromptOutcome) -> i32 {
    match o.exit_code {
        Some(c) => c,
        None => -1i32,
    }
}

/// Decimal notation of a signed 32-bit integer.
pub fn signed_string(i: i32) -> (r: String)
    ensures
        r@ == signed_decimal(i as int),
{
    if i < 0 {
        let wide: i64 = i as i64;
        let magnitude: usize = (-wide) as usize;
        let digits = decimal_string(magnitude);
        let mut r = own("-");
        r.append(digits.as_str());
        proof {
            reveal_strlit("-");
        }
        r
    } else {
        decimal_string(i as usize)
    }
}

/// The result of a run of the agent program named `program`: its output
/// when the program exited with 0, otherwise an error that names the
/// program, with the exit code and the error output (trailing white space
/// removed).
pub fn run_agent(program: &str, outcome: PromptOutcome) -> (r: Result<AgentResult, String>)
    ensures
        r is Ok <==> exit_code_of(outcome) == 0,
        r matches Ok(a) ==> a.stdout == outcome.stdout,
        r matches Err(m) ==> m@ == program@ + " exited with code "@ + signed_decimal(exit_code_of(outcome) as int) + ": "@
            + trim_end_spec(outcome.stderr@),
{
    let code: i32 = match outcome.exit_code {
        Some(c) => c,
        None => -1,
    };
    if code != 0 {
        let mut m = own(program);
        m.append(" exited with code ");
        let digits = signed_string(code);
        m.append(digits.as_str());
        m.append(": ");
        let err = trim_end(outcome.stderr.as_str());
        m.append(err.as_str());
        return Err(m);
    }
    Ok(AgentResult { stdout: outcome.stdout })
}

/// One block of a Messages API answer: its `type` and, for text, its `text`.
pub struct ContentBlock {
    pub block_type: String,
    pub text: Option<String>,
}

/// The texts of the first `n` blocks that are of type `text` and carry a
/// text, in order.
pub open spec fn text_parts(blocks: Seq<ContentBlock>, n: int) -> Seq<Seq<char>>
    decreases n,
{
    if n <= 0 {
        Seq::empty()
    } else {
        let prev = text_parts(blocks, n - 1);
        let b = blocks[n - 1];
        if b.block_type@ == "text"@ && b.text is Some {
            prev.push(b.text.unwrap()@)
        } else {
            prev
        }
    }
}

/// The text of a Messages API answer: the texts of its text blocks, one per
/// line.
pub fn response_text(blocks: &Vec<ContentBlock>) -> (r: String)
    ensures
        r@ == join(text_parts(blocks@, blocks@.len() as int), "\n"@),
{
    let mut out = String::new();
    let mut count: usize = 0;
    let mut i: usize = 0;
    proof {
        reveal_strlit("");
    }
    while i < blocks.len()
        invariant
            i <= blocks.len(),
            count == text_parts(blocks@, i as int).len(),
            count <= i,
            out@ == join_upto(text_parts(blocks@, i as int), "\n"@, count as int),
        decreases blocks.len() - i,
    {
        let b = &blocks[i];
        let ghost parts = text_parts(blocks@, i as int);
        if str_eq(b.block_type.as_str(), "text") {
            match &b.text {
                Some(t) => {
                    if count > 0 {
                        out.append("\n");
                    }
                    out.append(t.as_str());
                    proof {
                        let next = parts.push(t@);
                        assert(text_parts(blocks@, i + 1) == next);
                        assert(next.subrange(0, count as int) =~= parts);
                        lemma_join_upto_prefix(next, parts, "\n"@, count as int);
                    }
                    count += 1;
                },
                None => {},
            }
        }
        i += 1;
    }
    out
}

/// Joining the first `n` parts looks only at those parts.
proof fn lemma_join_upto_prefix(a: Seq<Seq<char>>, b: Seq<Seq<char>>, sep: Seq<char>, n: int)
    requires
        0 <= n <= a.len(),
        n <= b.len(),
        forall|k: int| 0 <= k < n ==> a[k] == b[k],
    ensures
        join_upto(a, sep, n) == join_upto(b, sep, n),
    decreases n,
{
    if n > 0 {
        lemma_join_upto_prefix(a, b, sep, n - 1);
    }
}

} // verus!
