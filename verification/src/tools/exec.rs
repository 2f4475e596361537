//! What a shell command printed, cut to size, and the text that tells the model of it.

use crate::numerals;
use crate::text;
use vstd::prelude::*;

verus! {

/// Per-stream cap on captured output before it is fed back to the model, in bytes.
pub const MAX_STREAM_BYTES: usize = 8192;

/// The outcome of a shell command.
#[derive(Debug)]
pub struct ExecResult {
    pub command: String,
    pub stdout: String,
    pub stderr: String,
    pub exit_code: Option<i32>,
    pub timed_out: bool,
}

/// `s` with a line feed at its end.
pub open spec fn ended(s: Seq<char>) -> Seq<char> {
    if text::ends_with_char(s, '\n') {
        s
    } else {
        s.push('\n')
    }
}

/// What an outcome says before its exit code.
pub open spec fn printed(timed_out: bool, stdout: Seq<char>, stderr: Seq<char>) -> Seq<char> {
    let late = if timed_out {
        "[command timed out]\n"@
    } else {
        seq![]
    };
    let out = if text::blank(stdout) {
        seq![]
    } else {
        ended(stdout)
    };
    let err = if text::blank(stderr) {
        seq![]
    } else {
        "[stderr]\n"@ + ended(stderr)
    };
    late + out + err
}

/// The text that tells of an outcome. A zero exit code is worth a word only where
/// nothing else is.
pub open spec fn feedback(
    timed_out: bool,
    stdout: Seq<char>,
    stderr: Seq<char>,
    exit_code: Option<int>,
) -> Seq<char> {
    let said = printed(timed_out, stdout, stderr);
    match exit_code {
        Some(code) => if code == 0 && !text::blank(said) {
            said
        } else {
            said + "[exit code "@ + numerals::signed_decimal(code) + "]\n"@
        },
        None => if text::blank(said) {
            said + "[no output]\n"@
        } else {
            said
        },
    }
}

/// What stands behind output that was cut.
pub open spec fn cut_mark() -> Seq<char> {
    "\n…[truncated]"@
}

/// `r` is `s`, cut to at most `MAX_STREAM_BYTES` bytes and marked where it is longer.
pub open spec fn capped(s: Seq<char>, r: Seq<char>) -> bool {
    if text::byte_len(s) > MAX_STREAM_BYTES {
        exists|k: int| #[trigger]
            text::is_longest_within(s, MAX_STREAM_BYTES as nat, k) && r == s.take(k) + cut_mark()
    } else {
        r == s
    }
}

fn append_ended(out: &mut String, s: &str)
    ensures
        final(out)@ == old(out)@ + ended(s@),
{
    out.append(s);
    let v = text::chars_of(s);
    if v.len() == 0 || v[v.len() - 1] != '\n' {
        out.push('\n');
    }
    assert(out@ =~= old(out)@ + ended(s@));
}

impl ExecResult {
    /// Render the result as the text fed back into the conversation.
    pub fn as_feedback(&self) -> (r: String)
        ensures
            r@ == feedback(
                self.timed_out,
                self.stdout@,
                self.stderr@,
                match self.exit_code {
                    Some(code) => Some(code as int),
                    None => None,
                },
            ),
    {
        let mut out = String::new();
        if self.timed_out {
            out.append("[command timed out]\n");
        }
        if !text::is_blank(self.stdout.as_str()) {
            append_ended(&mut out, self.stdout.as_str());
        }
        if !text::is_blank(self.stderr.as_str()) {
            out.append("[stderr]\n");
            append_ended(&mut out, self.stderr.as_str());
        }
        let ghost said = printed(self.timed_out, self.stdout@, self.stderr@);
        assert(out@ =~= said);
        let silent = text::is_blank(out.as_str());
        match self.exit_code {
            Some(code) => {
                if code != 0 || silent {
                    out.append("[exit code ");
                    let number = numerals::signed_decimal_text(code);
                    out.append(number.as_str());
                    out.append("]\n");
                }
            },
            None => {
                if silent {
                    out.append("[no output]\n");
                }
            },
        }
        out
    }

    /// The outcome of a command that could not be started.
    pub fn not_spawned(command: String, error: &str) -> (r: ExecResult)
        ensures
            r.command@ == command@,
            r.stdout@ == Seq::<char>::empty(),
            r.stderr@ == "failed to spawn command: "@ + error@,
            r.exit_code is None,
            !r.timed_out,
    {
        let mut stderr = String::new();
        stderr.append("failed to spawn command: ");
        stderr.append(error);
        ExecResult { command, stdout: String::new(), stderr, exit_code: None, timed_out: false }
    }

    /// The outcome of a command that ran to its end.
    pub fn completed(
        command: String,
        stdout: String,
        stderr: String,
        exit_code: Option<i32>,
    ) -> (r: ExecResult)
        ensures
            r.command@ == command@,
            capped(stdout@, r.stdout@),
            capped(stderr@, r.stderr@),
            r.exit_code == exit_code,
            !r.timed_out,
    {
        ExecResult {
            command,
            stdout: truncate(stdout),
            stderr: truncate(stderr),
            exit_code,
            timed_out: false,
        }
    }

    /// The outcome of a command whose end could not be awaited.
    pub fn broken(command: String, error: &str) -> (r: ExecResult)
        ensures
            r.command@ == command@,
            r.stdout@ == Seq::<char>::empty(),
            r.stderr@ == "error while running command: "@ + error@,
            r.exit_code is None,
            !r.timed_out,
    {
        let mut stderr = String::new();
        stderr.append("error while running command: ");
        stderr.append(error);
        ExecResult { command, stdout: String::new(), stderr, exit_code: None, timed_out: false }
    }

    /// The outcome of a command that took longer than `timeout_secs`.
    pub fn late(command: String, timeout_secs: u64) -> (r: ExecResult)
        ensures
            r.command@ == command@,
            r.stdout@ == Seq::<char>::empty(),
            r.stderr@ == "command exceeded "@ + numerals::decimal(timeout_secs as nat)
                + "s timeout"@,
            r.exit_code is None,
            r.timed_out,
    {
        let mut stderr = String::new();
        stderr.append("command exceeded ");
        let number = numerals::decimal_text(timeout_secs);
        stderr.append(number.as_str());
        stderr.append("s timeout");
        ExecResult { command, stdout: String::new(), stderr, exit_code: None, timed_out: true }
    }
}

/// `s`, cut on a character boundary at or below the cap where it is longer.
pub fn truncate(s: String) -> (r: String)
    ensures
        capped(s@, r@),
{
    if s.as_str().as_bytes().len() <= MAX_STREAM_BYTES {
        return s;
    }
    let v = text::chars_of(s.as_str());
    let k = text::fitting_chars(&v, MAX_STREAM_BYTES);
    let mut out = text::slice_text(&v, 0, k);
    assert(v@.subrange(0, k as int) =~= s@.take(k as int));
    out.append("\n…[truncated]");
    assert(text::is_longest_within(s@, MAX_STREAM_BYTES as nat, k as int));
    out
}

/// Output is never cut below what fits, and the cut is unique: of the prefixes of `s`
/// within the cap, the one kept is the longest.
pub proof fn law_cut_is_longest(s: Seq<char>, cap: nat, k: int, j: int)
    requires
        text::is_longest_within(s, cap, k),
        0 <= j <= s.len(),
    ensures
        text::byte_len(s.take(j)) <= cap <==> j <= k,
{
    if j <= k {
        let p = s.take(k);
        text::lemma_byte_len_split(p, j);
        assert(p.take(j) =~= s.take(j));
    } else {
        let p = s.take(j);
        text::lemma_byte_len_split(p, k + 1);
        assert(p.take(k + 1) =~= s.take(k + 1));
    }
}

/// The model is always told something: the text of an outcome is never blank.
pub proof fn law_feedback_speaks(
    timed_out: bool,
    stdout: Seq<char>,
    stderr: Seq<char>,
    exit_code: Option<int>,
)
    ensures
        !text::blank(feedback(timed_out, stdout, stderr, exit_code)),
{
    let said = printed(timed_out, stdout, stderr);
    let all = feedback(timed_out, stdout, stderr, exit_code);
    reveal_strlit("[exit code ");
    reveal_strlit("[no output]\n");
    if all != said {
        assert(all[said.len() as int] == '[');
    }
}

/// Output of no more than 8192 bytes is kept as it is. Of longer output as much is kept as
/// 8192 bytes hold, no character less and none cut in two, and a mark tells of the cut.
pub proof fn law_output_is_kept(s: Seq<char>, r: Seq<char>)
    requires
        capped(s, r),
    ensures
        text::byte_len(s) <= 8192 ==> r == s,
        text::byte_len(s) > 8192 ==> exists|k: int|
            #![trigger s.take(k)]
            0 <= k < s.len() && r == s.take(k) + "\n…[truncated]"@ && text::byte_len(s.take(k))
                <= 8192 < text::byte_len(s.take(k + 1)),
{
    if text::byte_len(s) > 8192 {
        let k = choose|k: int| #[trigger]
            text::is_longest_within(s, MAX_STREAM_BYTES as nat, k) && r == s.take(k) + cut_mark();
        if k == s.len() {
            assert(s.take(k) =~= s);
        }
        law_cut_is_longest(s, MAX_STREAM_BYTES as nat, k, k + 1);
        assert(text::byte_len(s.take(k)) <= 8192);
    }
}

/// The model is told all of it: that time ran out, what was printed, what went wrong, and
/// an exit code that is not zero.
pub proof fn law_feedback_tells_all(
    timed_out: bool,
    stdout: Seq<char>,
    stderr: Seq<char>,
    exit_code: Option<int>,
)
    ensures
        ({
            let told = feedback(timed_out, stdout, stderr, exit_code);
            &&& timed_out ==> text::occurs_at(told, "[command timed out]\n"@, 0)
            &&& !text::blank(stdout) ==> text::contains(told, stdout)
            &&& !text::blank(stderr) ==> text::contains(told, "[stderr]\n"@ + stderr)
            &&& exit_code is Some && exit_code->0 != 0 ==> text::contains(
                told,
                "[exit code "@ + numerals::signed_decimal(exit_code->0) + "]\n"@,
            )
        }),
{
    let told = feedback(timed_out, stdout, stderr, exit_code);
    let none: Seq<char> = seq![];
    let late = if timed_out {
        "[command timed out]\n"@
    } else {
        none
    };
    let out = if text::blank(stdout) {
        none
    } else {
        ended(stdout)
    };
    let said = printed(timed_out, stdout, stderr);
    let rest = told.skip(said.len() as int);
    assert(told =~= said + rest);
    if timed_out {
        assert(told.subrange(0, late.len() as int) =~= late);
    }
    if !text::blank(stdout) {
        let p = late.len() as int;
        assert(told.subrange(p, p + stdout.len()) =~= stdout);
        assert(text::occurs_at(told, stdout, p));
    }
    if !text::blank(stderr) {
        let p = (late + out).len() as int;
        let wrong = "[stderr]\n"@ + stderr;
        assert(said.subrange(p, p + wrong.len()) =~= wrong);
        assert(told.subrange(p, p + wrong.len()) =~= wrong);
        assert(text::occurs_at(told, wrong, p));
    }
    if exit_code is Some && exit_code->0 != 0 {
        let code = "[exit code "@ + numerals::signed_decimal(exit_code->0) + "]\n"@;
        let p = said.len() as int;
        assert(told =~= said + code);
        assert(told.subrange(p, p + code.len()) =~= code);
        assert(text::occurs_at(told, code, p));
    }
}

/// Of a command that went well, the model is told what it printed and nothing else.
pub proof fn law_success_is_what_was_printed(stdout: Seq<char>, stderr: Seq<char>)
    requires
        !text::blank(stdout),
        text::blank(stderr),
    ensures
        feedback(false, stdout, stderr, Some(0)) == stdout || feedback(
            false,
            stdout,
            stderr,
            Some(0),
        ) == stdout.push('\n'),
{
    let said = printed(false, stdout, stderr);
    assert(said =~= ended(stdout));
    let i = choose|i: int| 0 <= i < stdout.len() && !text::is_white(#[trigger] stdout[i]);
    assert(said[i] == stdout[i]);
}

} // verus!
