//! `remote_bash`: a shell command and its output.

use vstd::prelude::*;

use crate::engines;
use crate::json;
use crate::json::{Json, JsonView, Member};
use crate::numbers;
use crate::text;
use crate::tools;
use crate::views;

verus! {

broadcast use {
    crate::views::group_all,
    crate::views::group_texts,
    crate::json::group_json,
};

/// How long a command may run, in seconds, where nothing else was asked for.
pub const DEFAULT_TIMEOUT: u64 = 60;

/// Tool implementing shell command execution.
pub struct BashTool;

/// A variable of the environment of a command.
#[derive(Debug)]
pub struct Variable {
    pub name: String,
    pub value: String,
}

impl View for Variable {
    type V = (Seq<char>, Seq<char>);

    open spec fn view(&self) -> (Seq<char>, Seq<char>) {
        (self.name@, self.value@)
    }
}

/// What a `remote_bash` asks for.
#[derive(Debug)]
pub struct BashRequest {
    pub command: String,
    pub sudo: bool,
    pub cwd: Option<String>,
    pub timeout_secs: u64,
    pub env: Vec<Variable>,
}

/// The model of a [`BashRequest`].
#[verifier::ext_equal]
pub struct BashRequestView {
    pub command: Seq<char>,
    pub sudo: bool,
    pub cwd: Option<Seq<char>>,
    pub timeout_secs: u64,
    pub env: Seq<(Seq<char>, Seq<char>)>,
}

impl View for BashRequest {
    type V = BashRequestView;

    open spec fn view(&self) -> BashRequestView {
        BashRequestView {
            command: self.command@,
            sudo: self.sudo,
            cwd: views::opt_text(self.cwd),
            timeout_secs: self.timeout_secs,
            env: views::all(self.env@),
        }
    }
}

/// What is to be done about a command that was started.
#[derive(Debug, Clone, Copy, PartialEq, Eq, Structural)]
pub enum PollStep {
    /// It has ended: collect its output.
    Done,
    /// It has run for longer than it may: stop it.
    Kill,
    /// Look again a little later.
    Wait,
}

/// How many nanoseconds there are in a second.
pub const NANOS_PER_SEC: u128 = 1_000_000_000;

/// The members of an object that are texts.
pub open spec fn text_members(members: Seq<(Seq<char>, JsonView)>) -> Seq<(Seq<char>, Seq<char>)>
    decreases members.len(),
{
    if members.len() == 0 {
        Seq::empty()
    } else {
        let rest = text_members(members.drop_last());
        match members.last().1 {
            JsonView::Text(s) => rest.push((members.last().0, s)),
            _ => rest,
        }
    }
}

/// The request that arguments make.
pub open spec fn request_of(args: JsonView) -> Result<BashRequestView, Seq<char>> {
    match json::text_in(json::member(args, "command"@)) {
        None => Err(tools::required("command"@, "a string"@)),
        Some(command) => Ok(
            BashRequestView {
                command,
                sudo: tools::flag(args, "sudo"@, false),
                cwd: json::text_in(json::member(args, "cwd"@)),
                timeout_secs: match json::integer_in(json::member(args, "timeout"@)) {
                    Some(n) => n,
                    None => DEFAULT_TIMEOUT,
                },
                env: match json::member(args, "env"@) {
                    Some(JsonView::Object(members)) => text_members(members),
                    _ => Seq::empty(),
                },
            },
        ),
    }
}

/// The output of a command: what it wrote to its standard output, then its complaints,
/// from a new line on.
pub open spec fn combined(stdout: Seq<u8>, stderr: Seq<u8>) -> Seq<char> {
    let out = engines::lossy_text(stdout);
    if stderr.len() == 0 {
        out
    } else if out.len() > 0 && out.last() != '\n' {
        out + "\n"@ + engines::lossy_text(stderr)
    } else {
        out + engines::lossy_text(stderr)
    }
}

/// An exit code, which may be negative.
pub open spec fn code_text(code: i32) -> Seq<char> {
    if code < 0 {
        "-"@ + numbers::dec((-code) as nat)
    } else {
        numbers::dec(code as nat)
    }
}

/// The result of a command that has ended.
pub open spec fn finished_json(output: Seq<char>, code: i32, success: bool) -> JsonView {
    let base = seq![
        ("content"@, JsonView::Array(seq![tools::block_json(output)])),
        ("exitCode"@, JsonView::Number(code_text(code))),
    ];
    JsonView::Object(
        if success {
            base
        } else {
            base.push(("isError"@, JsonView::Bool(true)))
        },
    )
}

/// What was written before a command was stopped: the pieces that are not empty, each
/// from a new line on.
pub open spec fn pieces_text(pieces: Seq<Seq<u8>>) -> Seq<char>
    decreases pieces.len(),
{
    if pieces.len() == 0 {
        Seq::empty()
    } else {
        let rest = pieces_text(pieces.drop_last());
        let p = pieces.last();
        if p.len() == 0 {
            rest
        } else if rest.len() > 0 {
            rest + "\n"@ + engines::lossy_text(p)
        } else {
            rest + engines::lossy_text(p)
        }
    }
}

/// What is told of a command that took too long.
pub open spec fn timeout_text(secs: u64, pieces: Seq<Seq<u8>>) -> Seq<char> {
    let head = "Command timed out after "@ + numbers::dec(secs as nat) + "s"@;
    if pieces_text(pieces).len() == 0 {
        head
    } else {
        head + "\n\n"@ + pieces_text(pieces)
    }
}

/// The result of a command that took too long.
pub open spec fn timeout_json(text: Seq<char>) -> JsonView {
    JsonView::Object(
        seq![
            ("isError"@, JsonView::Bool(true)),
            ("content"@, JsonView::Array(seq![tools::block_json(text)])),
        ],
    )
}

/// The models of byte strings.
pub open spec fn bytes_of(v: Seq<Vec<u8>>) -> Seq<Seq<u8>> {
    v.map_values(|b: Vec<u8>| b@)
}

fn collect_variables(members: &[Member]) -> (r: Vec<Variable>)
    ensures
        views::all(r@) == text_members(views::all(members@)),
{
    let ghost vm = views::all(members@);
    let mut out: Vec<Variable> = Vec::new();
    for i in 0..members.len()
        invariant
            vm == views::all(members@),
            views::all(out@) == text_members(vm.take(i as int)),
    {
        proof {
            views::lemma_take_step(vm, i as int);
            assert(vm[i as int] == members@[i as int]@);
        }
        match &members[i].value {
            Json::Text(s) => {
                out.push(Variable { name: members[i].key.clone(), value: s.clone() });
            },
            _ => {},
        }
    }
    proof {
        views::lemma_take_all(vm);
    }
    out
}

impl BashTool {
    /// The request that arguments make:
    /// `{ command: string, cwd?: string, timeout?: number, env?: object, sudo?: bool }`.
    pub fn request(args: &Json) -> (r: Result<BashRequest, String>)
        ensures
            match (r, request_of(args@)) {
                (Ok(a), Ok(b)) => a@ == b,
                (Err(e), Err(m)) => e@ == m,
                _ => false,
            },
    {
        let command = match args.text_at("command") {
            Some(c) => c,
            None => {
                return Err(tools::required_message("command", "a string"));
            },
        };
        let timeout_secs: u64 = match args.integer_at("timeout") {
            Some(n) => n,
            None => DEFAULT_TIMEOUT,
        };
        let env = match args.get("env") {
            Some(j) => match j {
                Json::Object(members) => collect_variables(members.as_slice()),
                _ => Vec::new(),
            },
            None => Vec::new(),
        };
        let r = BashRequest {
            command,
            sudo: tools::flag_of(args, "sudo", false),
            cwd: args.text_at("cwd"),
            timeout_secs,
            env,
        };
        assert(r@ =~= request_of(args@)->Ok_0);
        Ok(r)
    }

    /// The program and arguments that run a command: a shell, through `sudo -n` where
    /// that is asked for, which fails at once instead of asking for a password.
    pub fn command_line(request: &BashRequest) -> (r: Vec<String>)
        ensures
            views::texts(r@) == if request.sudo {
                seq!["sudo"@, "-n"@, "sh"@, "-c"@, request.command@]
            } else {
                seq!["sh"@, "-c"@, request.command@]
            },
    {
        let mut v: Vec<String> = Vec::new();
        if request.sudo {
            v.push(text::owned("sudo"));
            v.push(text::owned("-n"));
        }
        v.push(text::owned("sh"));
        v.push(text::owned("-c"));
        v.push(request.command.clone());
        proof {
            if request.sudo {
                assert(views::texts(v@) =~= seq![
                    "sudo"@,
                    "-n"@,
                    "sh"@,
                    "-c"@,
                    request.command@,
                ]);
            } else {
                assert(views::texts(v@) =~= seq!["sh"@, "-c"@, request.command@]);
            }
        }
        v
    }

    /// What is to be done about a command after a look at it. One that has ended is done,
    /// however long it ran.
    pub fn next_step(exited: bool, elapsed_nanos: u128, timeout_secs: u64) -> (r: PollStep)
        ensures
            r == (if exited {
                PollStep::Done
            } else if elapsed_nanos > timeout_secs * NANOS_PER_SEC {
                PollStep::Kill
            } else {
                PollStep::Wait
            }),
    {
        if exited {
            PollStep::Done
        } else {
            assert(timeout_secs * NANOS_PER_SEC <= u128::MAX) by (nonlinear_arith)
                requires
                    timeout_secs <= 0xffff_ffff_ffff_ffff,
                    NANOS_PER_SEC == 1_000_000_000,
            ;
            if elapsed_nanos > timeout_secs as u128 * NANOS_PER_SEC {
                PollStep::Kill
            } else {
                PollStep::Wait
            }
        }
    }

    /// The result of a command that has ended. See [`combined`] and [`finished_json`].
    pub fn finished(stdout: &[u8], stderr: &[u8], code: Option<i32>, success: bool) -> (r: Json)
        ensures
            r@ == finished_json(
                combined(stdout@, stderr@),
                match code {
                    Some(c) => c,
                    None => -1i32,
                },
                success,
            ),
    {
        let mut out = engines::decode_lossy(stdout);
        if stderr.len() > 0 {
            let chars = text::chars_of(out.as_str());
            let n: usize = chars.len();
            if n > 0 && chars[n - 1] != '\n' {
                out.append("\n");
            }
            out.append(engines::decode_lossy(stderr).as_str());
        }
        let code: i32 = match code {
            Some(c) => c,
            None => -1,
        };
        let number = if code < 0 {
            let mut s = text::owned("-");
            s.append(numbers::decimal((-(code as i64)) as u64).as_str());
            s
        } else {
            numbers::decimal(code as u64)
        };
        let mut members: Vec<Member> = Vec::new();
        members.push(json::pair("content", tools::blocks_of(out.as_str())));
        members.push(json::pair("exitCode", Json::Number(number)));
        if !success {
            members.push(json::pair("isError", Json::Bool(true)));
        }
        proof {
            assert(views::all(members@) =~= finished_json(out@, code, success)->Object_0);
        }
        Json::Object(members)
    }

    /// The result of a command that took too long, with what it had written, in the order
    /// in which it came. See [`timeout_text`].
    pub fn timed_out(secs: u64, pieces: &[Vec<u8>]) -> (r: Json)
        ensures
            r@ == timeout_json(timeout_text(secs, bytes_of(pieces@))),
    {
        let ghost vp = bytes_of(pieces@);
        let mut written = String::new();
        assert(written@ =~= Seq::empty());
        for i in 0..pieces.len()
            invariant
                vp == bytes_of(pieces@),
                written@ == pieces_text(vp.take(i as int)),
        {
            proof {
                views::lemma_take_step(vp, i as int);
            }
            if pieces[i].len() > 0 {
                let chars: usize = text::char_count(written.as_str());
                if chars > 0 {
                    written.append("\n");
                }
                written.append(engines::decode_lossy(pieces[i].as_slice()).as_str());
            }
        }
        proof {
            views::lemma_take_all(vp);
        }
        let mut s = text::owned("Command timed out after ");
        s.append(numbers::decimal(secs).as_str());
        s.append("s");
        let chars: usize = text::char_count(written.as_str());
        if chars > 0 {
            s.append("\n\n");
            s.append(written.as_str());
        }
        json::object_of_two("isError", Json::Bool(true), "content", tools::blocks_of(s.as_str()))
    }
}

// ── Laws ─────────────────────────────────────────────────────────────────

/// Of the members of an environment those with a text count, all of them and in order.
pub proof fn law_text_members(members: Seq<(Seq<char>, JsonView)>)
    ensures
        text_members(members) == members.filter_map(
            |m: (Seq<char>, JsonView)|
                match m.1 {
                    JsonView::Text(s) => Some((m.0, s)),
                    _ => None,
                },
        ),
    decreases members.len(),
{
    if members.len() > 0 {
        law_text_members(members.drop_last());
    }
    assert(text_members(members) =~= members.filter_map(
        |m: (Seq<char>, JsonView)|
            match m.1 {
                JsonView::Text(s) => Some((m.0, s)),
                _ => None,
            },
    ));
}

/// What a command wrote is shown whole: what it wrote to its output, then what it wrote to its
/// errors, on a line of its own.
pub proof fn law_both_streams_shown(stdout: Seq<u8>, stderr: Seq<u8>)
    ensures
        stderr.len() == 0 ==> combined(stdout, stderr) == engines::lossy_text(stdout),
        stderr.len() > 0 ==> exists|sep: Seq<char>|
            combined(stdout, stderr) == engines::lossy_text(stdout) + sep + engines::lossy_text(
                stderr,
            ) && (sep == seq!['\n'] || sep.len() == 0) && ((#[trigger] sep.len()) == 0 <==> (
            engines::lossy_text(stdout).len() == 0 || engines::lossy_text(stdout).last() == '\n')),
{
    reveal_strlit("\n");
    assert("\n"@ =~= seq!['\n']);
    let out = engines::lossy_text(stdout);
    let err = engines::lossy_text(stderr);
    if stderr.len() > 0 {
        if out.len() > 0 && out.last() != '\n' {
            let sep = seq!['\n'];
            assert(combined(stdout, stderr) == out + sep + err);
            assert(sep.len() == 1);
        } else {
            let sep = Seq::<char>::empty();
            assert(combined(stdout, stderr) =~= out + sep + err);
            assert(sep.len() == 0);
        }
    }
}

/// What a command had written when its time was up is shown whole: every piece with bytes in
/// it, in order, one below the other.
pub proof fn law_pieces_shown(pieces: Seq<Seq<u8>>)
    requires
        forall|i: int|
            0 <= i < pieces.len() && (#[trigger] pieces[i]).len() > 0 ==> engines::lossy_text(
                pieces[i],
            ).len() > 0,
    ensures
        pieces_text(pieces) == text::join(
            pieces.filter(|p: Seq<u8>| p.len() > 0).map_values(
                |p: Seq<u8>| engines::lossy_text(p),
            ),
            seq!['\n'],
        ),
        (pieces_text(pieces).len() == 0) == (pieces.filter(|p: Seq<u8>| p.len() > 0).len() == 0),
    decreases pieces.len(),
{
    reveal(Seq::filter);
    reveal_strlit("\n");
    assert("\n"@ =~= seq!['\n']);
    let q = |p: Seq<u8>| p.len() > 0;
    let f = |p: Seq<u8>| engines::lossy_text(p);
    if pieces.len() > 0 {
        let rest = pieces.drop_last();
        assert forall|i: int| 0 <= i < rest.len() && (#[trigger] rest[i]).len() > 0 implies engines::lossy_text(
            rest[i],
        ).len() > 0 by {
            assert(rest[i] == pieces[i]);
        }
        law_pieces_shown(rest);
        let before = rest.filter(q).map_values(f);
        let p = pieces.last();
        if p.len() > 0 {
            assert(pieces[pieces.len() - 1] == p);
            let now = pieces.filter(q).map_values(f);
            assert(now =~= before.push(f(p)));
            assert(now.drop_last() =~= before);
            if before.len() == 0 {
                assert(pieces_text(rest) =~= Seq::empty());
                assert(pieces_text(pieces) =~= f(p));
            }
        }
    }
}

} // verus!
