//! Prerequisite checks for chat + fine-tuning, returned as structured data so a
//! frontend can render them as text, `--json`, or a settings-panel checklist.

use crate::config;
use crate::config::Config;
use crate::text;
use vstd::prelude::*;

verus! {

/// One prerequisite check.
#[derive(Debug)]
pub struct Check {
    pub name: String,
    pub ok: bool,
    pub detail: String,
}

/// What a check says.
pub struct CheckView {
    pub name: Seq<char>,
    pub ok: bool,
    pub detail: Seq<char>,
}

impl View for Check {
    type V = CheckView;

    open spec fn view(&self) -> CheckView {
        CheckView { name: self.name@, ok: self.ok, detail: self.detail@ }
    }
}

/// What a list of checks says.
pub open spec fn check_views(v: Seq<Check>) -> Seq<CheckView> {
    v.map_values(|c: Check| c@)
}

/// The result of a `doctor` run.
#[derive(Debug)]
pub struct DoctorReport {
    pub checks: Vec<Check>,
    pub chat_model: String,
    pub chat_endpoint: String,
    pub mlx_base: String,
    pub dataset_path: String,
}

impl DoctorReport {
    pub fn all_ok(&self) -> (r: bool)
        ensures
            r == (forall|i: int| 0 <= i < self.checks@.len() ==> (#[trigger] self.checks@[i]).ok),
    {
        let mut i: usize = 0;
        while i < self.checks.len()
            invariant
                i <= self.checks@.len(),
                forall|k: int| 0 <= k < i ==> (#[trigger] self.checks@[k]).ok,
            decreases self.checks@.len() - i,
        {
            if !self.checks[i].ok {
                return false;
            }
            i += 1;
        }
        true
    }
}

/// What a command that reports its version printed.
#[derive(Debug)]
pub struct Printed {
    pub success: bool,
    pub stdout: String,
    pub stderr: String,
}

/// The first line of what a command printed, on stdout or else on stderr, white space at
/// the ends aside; nothing where it failed or printed nothing.
pub open spec fn version_of(success: bool, stdout: Seq<char>, stderr: Seq<char>) -> Option<
    Seq<char>,
> {
    let said = if text::trim(stdout).len() > 0 {
        text::trim(stdout)
    } else {
        text::trim(stderr)
    };
    if success && text::lines(said).len() > 0 {
        Some(text::lines(said)[0])
    } else {
        None
    }
}

/// The version that a command printed. `None` stands for one that could not be run.
pub fn cmd_version(printed: Option<Printed>) -> (r: Option<String>)
    ensures
        text::opt_view(r) == match printed {
            Some(p) => version_of(p.success, p.stdout@, p.stderr@),
            None => None,
        },
{
    let p = match printed {
        Some(p) => p,
        None => {
            return None;
        },
    };
    if !p.success {
        return None;
    }
    let mut said = text::trim_text(p.stdout.as_str());
    if said.as_str().is_empty() {
        said = text::trim_text(p.stderr.as_str());
    }
    let lines = text::lines_text(said.as_str());
    assert(text::views(lines@).len() == lines@.len());
    if lines.len() == 0 {
        return None;
    }
    assert(text::views(lines@)[0] == lines@[0]@);
    Some(lines[0].clone())
}

/// What was found out about the machine and the chat provider.
#[derive(Debug)]
pub struct Probes {
    /// What `uname -m` says.
    pub arch: Option<String>,
    /// The version of `ollama`.
    pub ollama: Option<String>,
    /// Whether the chat provider's discovery endpoint answers.
    pub reachable: bool,
    /// The version of `python3`.
    pub python: Option<String>,
    /// The version of `mlx_lm`.
    pub mlx: Option<String>,
}

/// What was found, or `missing`.
pub open spec fn found_or(found: Option<String>, missing: Seq<char>) -> Seq<char> {
    match found {
        Some(s) => s@,
        None => missing,
    }
}

/// The checks of what was found out.
pub open spec fn checks_of(p: Probes, endpoint: Seq<char>) -> Seq<CheckView> {
    let arch = found_or(p.arch, "unknown"@);
    seq![
        CheckView {
            name: "Apple Silicon (arm64)"@,
            ok: text::contains(arch, "arm64"@),
            detail: arch,
        },
        CheckView {
            name: "ollama (chat host)"@,
            ok: p.ollama is Some,
            detail: found_or(p.ollama, "not found — https://ollama.com"@),
        },
        CheckView {
            name: "chat provider reachable"@,
            ok: p.reachable,
            detail: if p.reachable {
                endpoint
            } else {
                "not reachable: "@ + endpoint
            },
        },
        CheckView {
            name: "python3 (for MLX)"@,
            ok: p.python is Some,
            detail: found_or(p.python, "not found"@),
        },
        CheckView {
            name: "mlx-lm (LoRA trainer)"@,
            ok: p.mlx is Some,
            detail: found_or(p.mlx, "not found — `pip install mlx-lm`"@),
        },
    ]
}

fn presence(name: &str, found: Option<String>, missing: &str) -> (r: Check)
    ensures
        r@ == (CheckView { name: name@, ok: found is Some, detail: found_or(found, missing@) }),
{
    match found {
        Some(detail) => Check { name: name.to_owned(), ok: true, detail },
        None => Check { name: name.to_owned(), ok: false, detail: missing.to_owned() },
    }
}

/// Put together what was found out. `dataset_path` is where the dataset is kept.
pub fn report(config: &Config, probes: Probes, dataset_path: String) -> (r: DoctorReport)
    ensures
        check_views(r.checks@) == checks_of(probes, config::chat_profile(*config).base_url),
        r.chat_model@ == config::chat_profile(*config).model,
        r.chat_endpoint@ == config::chat_profile(*config).base_url,
        r.mlx_base@ == config.finetune.mlx_base@,
        r.dataset_path == dataset_path,
{
    let endpoint = config.chat_profile().base_url;
    let mut checks: Vec<Check> = Vec::new();

    let arch = match probes.arch {
        Some(s) => s,
        None => "unknown".to_owned(),
    };
    checks.push(
        Check {
            name: "Apple Silicon (arm64)".to_owned(),
            ok: text::contains_text(arch.as_str(), "arm64"),
            detail: arch,
        },
    );
    checks.push(
        presence("ollama (chat host)", probes.ollama, "not found — https://ollama.com"),
    );
    let detail = if probes.reachable {
        endpoint.clone()
    } else {
        let mut out = String::new();
        out.append("not reachable: ");
        out.append(endpoint.as_str());
        assert(out@ =~= "not reachable: "@ + endpoint@);
        out
    };
    checks.push(
        Check { name: "chat provider reachable".to_owned(), ok: probes.reachable, detail },
    );
    checks.push(presence("python3 (for MLX)", probes.python, "not found"));
    checks.push(
        presence("mlx-lm (LoRA trainer)", probes.mlx, "not found — `pip install mlx-lm`"),
    );
    assert(check_views(checks@) =~= checks_of(probes, endpoint@));
    DoctorReport {
        checks,
        chat_model: config.chat_model(),
        chat_endpoint: endpoint,
        mlx_base: config.finetune.mlx_base.clone(),
        dataset_path,
    }
}

/// How wide the names of checks are printed.
pub const NAME_WIDTH: usize = 26;

/// `name` with spaces behind it, up to `width` characters.
pub open spec fn padded(name: Seq<char>, width: nat) -> Seq<char> {
    if name.len() >= width {
        name
    } else {
        name + Seq::new((width - name.len()) as nat, |i: int| ' ')
    }
}

/// The line of a check.
pub open spec fn line_of(c: CheckView) -> Seq<char> {
    let mark = if c.ok {
        "✓"@
    } else {
        "✗"@
    };
    "["@ + mark + "] "@ + padded(c.name, NAME_WIDTH as nat) + " "@ + c.detail
}

impl Check {
    /// The line of this check.
    pub fn line(&self) -> (r: String)
        ensures
            r@ == line_of(self@),
    {
        let mut out = String::new();
        out.append("[");
        if self.ok {
            out.append("✓");
        } else {
            out.append("✗");
        }
        out.append("] ");
        let ghost start = out@;
        out.append(self.name.as_str());
        let mut n: usize = text::chars_of(self.name.as_str()).len();
        let ghost len = n as int;
        while n < NAME_WIDTH
            invariant
                len <= n,
                len == self.name@.len(),
                n <= NAME_WIDTH || n == len,
                out@ == start + self.name@ + Seq::new((n - len) as nat, |i: int| ' '),
            decreases NAME_WIDTH - n,
        {
            let ghost before = out@;
            out.push(' ');
            n += 1;
            assert(Seq::new((n - len) as nat, |i: int| ' ') =~= Seq::new(
                (n - 1 - len) as nat,
                |i: int| ' ',
            ).push(' '));
            assert(out@ =~= start + self.name@ + Seq::new((n - len) as nat, |i: int| ' '));
        }
        assert(out@ =~= start + padded(self.name@, NAME_WIDTH as nat));
        out.append(" ");
        out.append(self.detail.as_str());
        out
    }
}

/// What a report says: every check on a line of its own, and then what is configured.
pub open spec fn report_lines(
    checks: Seq<CheckView>,
    chat_model: Seq<char>,
    chat_endpoint: Seq<char>,
    mlx_base: Seq<char>,
    dataset_path: Seq<char>,
) -> Seq<Seq<char>> {
    seq!["gene doctor — prerequisite check\n"@] + checks.map_values(|c: CheckView| line_of(c))
        + seq![
        "\nchat model: "@ + chat_model,
        "endpoint:   "@ + chat_endpoint,
        "mlx base:   "@ + mlx_base,
        "dataset:    "@ + dataset_path,
    ]
}

impl DoctorReport {
    /// What this report says, line by line.
    pub fn lines(&self) -> (r: Vec<String>)
        ensures
            text::views(r@) == report_lines(
                check_views(self.checks@),
                self.chat_model@,
                self.chat_endpoint@,
                self.mlx_base@,
                self.dataset_path@,
            ),
    {
        let ghost cs = check_views(self.checks@);
        let ghost ls = cs.map_values(|c: CheckView| line_of(c));
        let ghost head = seq!["gene doctor — prerequisite check\n"@];
        let mut out: Vec<String> = Vec::new();
        out.push("gene doctor — prerequisite check\n".to_owned());
        let mut i: usize = 0;
        assert(text::views(out@) =~= head + ls.take(0));
        while i < self.checks.len()
            invariant
                i <= self.checks@.len(),
                cs == check_views(self.checks@),
                ls == cs.map_values(|c: CheckView| line_of(c)),
                text::views(out@) == head + ls.take(i as int),
            decreases self.checks@.len() - i,
        {
            let ghost before = out@;
            out.push(self.checks[i].line());
            assert(text::views(out@) =~= text::views(before).push(ls[i as int]));
            i += 1;
            assert(text::views(out@) =~= head + ls.take(i as int));
        }
        assert(ls.take(i as int) =~= ls);
        let ghost before = out@;
        out.push(text::concat_text("\nchat model: ", self.chat_model.as_str()));
        out.push(text::concat_text("endpoint:   ", self.chat_endpoint.as_str()));
        out.push(text::concat_text("mlx base:   ", self.mlx_base.as_str()));
        out.push(text::concat_text("dataset:    ", self.dataset_path.as_str()));
        assert(text::views(out@) =~= text::views(before) + seq![
            "\nchat model: "@ + self.chat_model@,
            "endpoint:   "@ + self.chat_endpoint@,
            "mlx base:   "@ + self.mlx_base@,
            "dataset:    "@ + self.dataset_path@,
        ]);
        out
    }
}

/// All is well if and only if the machine is an arm64, Ollama, Python and the trainer were
/// found, and the chat provider can be reached.
pub proof fn law_all_is_well(p: Probes, endpoint: Seq<char>)
    ensures
        (forall|i: int|
            0 <= i < checks_of(p, endpoint).len() ==> (#[trigger] checks_of(p, endpoint)[i]).ok)
            <==> p.arch is Some && text::contains(p.arch->0@, "arm64"@) && p.ollama is Some
            && p.reachable && p.python is Some && p.mlx is Some,
        checks_of(p, endpoint).len() == 5,
{
    let cs = checks_of(p, endpoint);
    reveal_strlit("unknown");
    reveal_strlit("arm64");
    if text::contains("unknown"@, "arm64"@) {
        let q = choose|q: int| text::occurs_at("unknown"@, "arm64"@, q);
        assert("unknown"@.subrange(q, q + 5)[0] == "unknown"@[q]);
        assert("arm64"@[0] == 'a');
    }
    if forall|i: int| 0 <= i < cs.len() ==> (#[trigger] cs[i]).ok {
        assert(cs[0].ok && cs[1].ok && cs[2].ok && cs[3].ok && cs[4].ok);
    }
}

/// What was found is shown as it was found.
pub proof fn law_findings_are_shown(p: Probes, endpoint: Seq<char>)
    ensures
        p.arch is Some ==> checks_of(p, endpoint)[0].detail == p.arch->0@,
        p.ollama is Some ==> checks_of(p, endpoint)[1].detail == p.ollama->0@,
        p.reachable ==> checks_of(p, endpoint)[2].detail == endpoint,
        p.python is Some ==> checks_of(p, endpoint)[3].detail == p.python->0@,
        p.mlx is Some ==> checks_of(p, endpoint)[4].detail == p.mlx->0@,
{
}

/// A version is the first line of what a command prints, on stderr only where it prints
/// nothing on stdout; a command that fails has none.
pub proof fn law_version_is_first_line(line: Seq<char>, rest: Seq<char>, other: Seq<char>)
    requires
        line.len() > 0,
        forall|i: int| 0 <= i < line.len() ==> #[trigger] line[i] != '\n',
        !text::is_white(line[0]),
        !text::is_white(line.last()),
    ensures
        version_of(true, line + seq!['\n'] + rest, other) == Some(line),
        text::blank(other) ==> version_of(true, other, line + seq!['\n'] + rest) == Some(line),
        version_of(false, line + seq!['\n'] + rest, other) is None,
        text::blank(other) && text::blank(rest) ==> version_of(true, other, rest) is None,
{
    let s = line + seq!['\n'] + rest;
    let core = text::trim(s);
    assert(s[0] == line[0]);
    assert(text::trim_start(s) == s);
    text::lemma_trim_end_kept(s, line.len() - 1);
    assert(s[line.len() - 1] == line.last());
    text::law_trim(s);
    let (before, behind) = choose|before: Seq<char>, behind: Seq<char>|
        text::blank(before) && text::blank(behind) && s == #[trigger] (before + core + behind);
    if before.len() > 0 {
        assert(s[0] == before[0]);
    }
    assert(core =~= s.take(core.len() as int));
    assert(core.len() >= line.len());
    assert(s.take(line.len() as int) =~= line);
    lemma_first_line(line, s, core.len() as int);
    text::lemma_blank_trim(other);
    text::lemma_blank_trim(rest);
    if text::blank(rest) {
        assert(text::trim(rest) =~= seq![]);
        text::lemma_line_feed(text::trim(rest));
    }
}

/// The first line of the start of a text.
proof fn lemma_first_line(line: Seq<char>, s: Seq<char>, k: int)
    requires
        line.len() > 0,
        forall|i: int| 0 <= i < line.len() ==> #[trigger] line[i] != '\n',
        !text::is_white(line.last()),
        line.len() <= k <= s.len(),
        s.take(line.len() as int) == line,
        s.len() > line.len() ==> s[line.len() as int] == '\n',
    ensures
        text::lines(s.take(k)).len() > 0,
        text::lines(s.take(k))[0] == line,
{
    let n = line.len() as int;
    let part = s.take(k);
    if k == n {
        text::lemma_line_feed(part);
    } else {
        let more = part.skip(n + 1);
        assert(s.take(n)[n - 1] == line.last());
        assert(part =~= line + seq!['\n'] + more);
        text::lemma_lines_one(line);
        text::lemma_lines_append(line + seq!['\n'], more);
    }
}

} // verus!
