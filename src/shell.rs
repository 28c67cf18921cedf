//! The fake shell: environment, prompt, variable expansion, the builtin
//! command table and the line editor that drives them.
use vstd::prelude::*;

use crate::text::{
    lemma_replace_absent, lemma_replace_no_occurrence, occurs_at, ascii, ascii_bytes, bytes_eq, push_all, replace_all, replace_bytes, split_whitespace, tokens,
};

verus! {

/// Shell variables as (name, value) pairs.
pub type Vars = Seq<(Seq<u8>, Seq<u8>)>;

/// Value of the variable `name`; a later entry wins over an earlier one.
pub open spec fn lookup(vars: Vars, name: Seq<u8>) -> Option<Seq<u8>>
    decreases vars.len(),
{
    if vars.len() == 0 {
        None
    } else if vars.last().0 == name {
        Some(vars.last().1)
    } else {
        lookup(vars.drop_last(), name)
    }
}

/// No name occurs twice.
pub open spec fn unique_names(vars: Vars) -> bool {
    forall|i: int, j: int| 0 <= i < j < vars.len() ==> vars[i].0 != vars[j].0
}

/// The variables every new shell starts with.
pub open spec fn default_vars() -> Vars {
    seq![
        (ascii("SHELL"@), ascii("sh"@)),
        (ascii("HOME"@), ascii("/home/user"@)),
        (ascii("USER"@), ascii("user"@)),
        (ascii("PATH"@), ascii("/bin"@)),
        (ascii("PS1"@), ascii("$ "@)),
    ]
}

/// The prompt: `PS1` with `\u` replaced by `USER` (empty if unset), or
/// `"$ "` where `PS1` is unset.
pub open spec fn prompt_of(vars: Vars) -> Seq<u8> {
    match lookup(vars, ascii("PS1"@)) {
        None => ascii("$ "@),
        Some(ps1) => {
            let user = match lookup(vars, ascii("USER"@)) {
                Some(u) => u,
                None => Seq::empty(),
            };
            replace_all(ps1, ascii("\\u"@), user)
        },
    }
}

/// `line` after replacing `$NAME` by its value for the first `n` variables,
/// one variable after another in order.
pub open spec fn expand_first(vars: Vars, n: nat, line: Seq<u8>) -> Seq<u8>
    decreases n,
{
    if n == 0 || n > vars.len() {
        line
    } else {
        let (name, value) = vars[n - 1];
        replace_all(expand_first(vars, (n - 1) as nat, line), seq![0x24u8] + name, value)
    }
}

/// `line` with every variable reference `$NAME` replaced by its value.
pub open spec fn expand_of(vars: Vars, line: Seq<u8>) -> Seq<u8> {
    expand_first(vars, vars.len(), line)
}

/// Each token followed by one space.
pub open spec fn join_spaced(ts: Seq<Seq<u8>>) -> Seq<u8>
    decreases ts.len(),
{
    if ts.len() == 0 {
        Seq::empty()
    } else {
        join_spaced(ts.drop_last()) + ts.last() + seq![0x20u8]
    }
}

/// What the builtin named by the first token prints for the tokens `ts`.
pub open spec fn builtin_text(ts: Seq<Seq<u8>>) -> Seq<u8>
    recommends
        ts.len() > 0,
{
    let name = ts[0];
    if name == ascii("id"@) {
        ascii("uid=1000(user) gid=1000(user) groups=1000(user)"@)
    } else if name == ascii("ls"@) {
        ascii("info.txt  passwords.txt"@)
    } else if name == ascii("cat"@) {
        Seq::empty()
    } else if name == ascii("echo"@) {
        join_spaced(ts.drop_first())
    } else {
        ascii("sh: "@) + name + ascii(": command not found..."@)
    }
}

/// The command's text for an expanded line; `None` for a blank line.
pub open spec fn command_of(line: Seq<u8>) -> Option<Seq<u8>> {
    let ts = tokens(line);
    if ts.len() == 0 {
        None
    } else {
        Some(builtin_text(ts))
    }
}

/// Terminal output for an expanded line: the command's text and a line
/// break (nothing for a blank line), then the prompt.
pub open spec fn execute_of(vars: Vars, line: Seq<u8>) -> Seq<u8> {
    match command_of(line) {
        Some(t) => t + ascii("\r\n"@) + prompt_of(vars),
        None => prompt_of(vars),
    }
}

/// Text of `String::from_utf8_lossy` on `b`, as UTF-8 bytes.
pub uninterp spec fn lossy_utf8(b: Seq<u8>) -> Seq<u8>;

/// All bytes are ASCII.
pub open spec fn all_ascii(b: Seq<u8>) -> bool {
    forall|i: int| 0 <= i < b.len() ==> b[i] < 0x80
}

/// Output of completing the pending line `pending`: a line break, then the
/// expanded line's execution.
pub open spec fn cycle_of(vars: Vars, pending: Seq<u8>) -> Seq<u8> {
    ascii("\r\n"@) + execute_of(vars, expand_of(vars, decoded(pending)))
}

/// The pending line as text: ASCII as it is, anything else through
/// `String::from_utf8_lossy`.
pub open spec fn decoded(pending: Seq<u8>) -> Seq<u8> {
    if all_ascii(pending) {
        pending
    } else {
        lossy_utf8(pending)
    }
}

/// Carriage return: completes the line.
pub open spec fn is_enter(c: u8) -> bool {
    c == 0x0d
}

/// Ctrl-C: interrupts the line.
pub open spec fn is_interrupt(c: u8) -> bool {
    c == 0x03
}

/// DEL: erases one byte.
pub open spec fn is_erase(c: u8) -> bool {
    c == 0x7f
}

/// A byte that the line editor takes as it is.
pub open spec fn is_plain(c: u8) -> bool {
    !is_enter(c) && !is_interrupt(c) && !is_erase(c)
}

/// One byte of input: from (pending line, output so far) to the next pair.
pub open spec fn step(vars: Vars, st: (Seq<u8>, Seq<u8>), c: u8) -> (Seq<u8>, Seq<u8>) {
    let (pending, out) = st;
    if is_enter(c) {
        (Seq::empty(), out + cycle_of(vars, pending))
    } else if is_interrupt(c) {
        (Seq::empty(), ascii("^C\r\n"@) + prompt_of(vars))
    } else if is_erase(c) {
        (
            if pending.len() > 0 {
                pending.drop_last()
            } else {
                pending
            },
            (seq![0x0du8] + out).drop_last(),
        )
    } else {
        (pending.push(c), out.push(c))
    }
}

/// The pending line and the output after feeding `data` to a shell whose
/// pending line was `pending`.
pub open spec fn feed_of(vars: Vars, pending: Seq<u8>, data: Seq<u8>) -> (Seq<u8>, Seq<u8>)
    decreases data.len(),
{
    if data.len() == 0 {
        (pending, Seq::empty())
    } else {
        step(vars, feed_of(vars, pending, data.drop_last()), data.last())
    }
}

/// Relies on `String::from_utf8_lossy`: its text depends on the bytes alone,
/// and ASCII bytes, being valid UTF-8, come back unchanged.
#[verifier::external_body]
fn decode_lossy(b: &Vec<u8>) -> (r: Vec<u8>)
    ensures
        r@ == lossy_utf8(b@),
        all_ascii(b@) ==> r@ == b@,
{
    String::from_utf8_lossy(b).into_owned().into_bytes()
}

/// A session's working directory, user and shell variables. No builtin
/// reads the first two yet.
pub struct Environment {
    cwd: Vec<u8>,
    user: Vec<u8>,
    vars: Vec<(Vec<u8>, Vec<u8>)>,
}

impl Environment {
    /// The variables as (name, value) pairs of bytes.
    pub closed spec fn vars_view(&self) -> Vars {
        self.vars@.map_values(|p: (Vec<u8>, Vec<u8>)| (p.0@, p.1@))
    }

    /// The working directory.
    pub closed spec fn cwd(&self) -> Seq<u8> {
        self.cwd@
    }

    /// The user name.
    pub closed spec fn user(&self) -> Seq<u8> {
        self.user@
    }

    /// The environment of a new session, seeded with `default_vars`.
    pub fn new() -> (r: Environment)
        ensures
            r.vars_view() == default_vars(),
            unique_names(r.vars_view()),
            r.cwd() == Seq::<u8>::empty(),
            r.user() == Seq::<u8>::empty(),
    {
        proof {
            reveal_strlit("SHELL");
            reveal_strlit("sh");
            reveal_strlit("HOME");
            reveal_strlit("/home/user");
            reveal_strlit("USER");
            reveal_strlit("user");
            reveal_strlit("PATH");
            reveal_strlit("/bin");
            reveal_strlit("PS1");
            reveal_strlit("$ ");
        }
        let mut vars: Vec<(Vec<u8>, Vec<u8>)> = Vec::new();
        vars.push((ascii_bytes("SHELL"), ascii_bytes("sh")));
        vars.push((ascii_bytes("HOME"), ascii_bytes("/home/user")));
        vars.push((ascii_bytes("USER"), ascii_bytes("user")));
        vars.push((ascii_bytes("PATH"), ascii_bytes("/bin")));
        vars.push((ascii_bytes("PS1"), ascii_bytes("$ ")));
        let r = Environment { cwd: Vec::new(), user: Vec::new(), vars };
        assert(r.vars_view() =~= default_vars());
        let ghost v = r.vars_view();
        assert(v[0].0[0] == 0x53 && v[1].0[0] == 0x48 && v[2].0[0] == 0x55 && v[3].0[0] == 0x50
            && v[4].0[0] == 0x50 && v[4].0[1] == 0x53 && v[3].0[1] == 0x41);
        r
    }

    /// Index of the entry that `lookup` reads for `name`.
    fn find(&self, name: &Vec<u8>) -> (r: Option<usize>)
        ensures
            match r {
                Some(i) => i < self.vars_view().len() && self.vars_view()[i as int].0 == name@
                    && lookup(self.vars_view(), name@) == Some(self.vars_view()[i as int].1),
                None => lookup(self.vars_view(), name@) == None::<Seq<u8>>,
            },
    {
        let ghost v = self.vars_view();
        let mut i: usize = self.vars.len();
        assert(v.take(i as int) =~= v);
        while i > 0
            invariant
                i <= v.len(),
                v == self.vars_view(),
                lookup(v, name@) == lookup(v.take(i as int), name@),
            decreases i,
        {
            assert(v.take(i as int).drop_last() =~= v.take(i - 1));
            if bytes_eq(&self.vars[i - 1].0, name) {
                return Some(i - 1);
            }
            i = i - 1;
        }
        None
    }

    /// The prompt, as `prompt_of` describes it.
    pub fn prompt(&self) -> (r: Vec<u8>)
        ensures
            r@ == prompt_of(self.vars_view()),
    {
        proof {
            reveal_strlit("PS1");
            reveal_strlit("USER");
            reveal_strlit("$ ");
            reveal_strlit("\\u");
        }
        match self.find(&ascii_bytes("PS1")) {
            None => ascii_bytes("$ "),
            Some(i) => {
                let mut user: Vec<u8> = Vec::new();
                match self.find(&ascii_bytes("USER")) {
                    Some(j) => push_all(&mut user, &self.vars[j].1),
                    None => {},
                }
                assert(user@ == match lookup(self.vars_view(), ascii("USER"@)) {
                    Some(u) => u,
                    None => Seq::<u8>::empty(),
                });
                replace_bytes(&self.vars[i].1, &ascii_bytes("\\u"), &user)
            },
        }
    }

    /// `line` with every `$NAME` replaced by its value, one variable after
    /// another in the order they were defined. Where one name is a prefix of
    /// another (`$P` and `$PATH`), that order decides the result.
    pub fn expand(&self, line: &Vec<u8>) -> (r: Vec<u8>)
        ensures
            r@ == expand_of(self.vars_view(), line@),
    {
        let ghost v = self.vars_view();
        let mut result: Vec<u8> = Vec::new();
        push_all(&mut result, line);
        let mut i: usize = 0;
        while i < self.vars.len()
            invariant
                i <= v.len(),
                v == self.vars_view(),
                result@ == expand_first(v, i as nat, line@),
            decreases v.len() - i,
        {
            let mut pat: Vec<u8> = Vec::new();
            pat.push(0x24u8);
            push_all(&mut pat, &self.vars[i].0);
            result = replace_bytes(&result, &pat, &self.vars[i].1);
            i = i + 1;
        }
        result
    }
}

/// The tokens each followed by one space.
fn join_tokens(ts: &Vec<Vec<u8>>, from: usize) -> (r: Vec<u8>)
    requires
        from <= ts.len(),
    ensures
        r@ == join_spaced(ts@.map_values(|t: Vec<u8>| t@).skip(from as int)),
{
    let ghost all = ts@.map_values(|t: Vec<u8>| t@);
    let mut out: Vec<u8> = Vec::new();
    let mut k: usize = from;
    assert(all.subrange(from as int, from as int) =~= Seq::<Seq<u8>>::empty());
    while k < ts.len()
        invariant
            from <= k <= ts.len(),
            all == ts@.map_values(|t: Vec<u8>| t@),
            out@ == join_spaced(all.subrange(from as int, k as int)),
        decreases ts.len() - k,
    {
        push_all(&mut out, &ts[k]);
        out.push(0x20u8);
        assert(all.subrange(from as int, k + 1).drop_last() =~= all.subrange(from as int, k as int));
        k = k + 1;
    }
    assert(all.subrange(from as int, ts.len() as int) =~= all.skip(from as int));
    out
}

/// What the builtin named by the first token of `line` prints, or `None`
/// where `line` holds no token.
pub fn command_output(line: &Vec<u8>) -> (r: Option<Vec<u8>>)
    ensures
        match r {
            Some(t) => command_of(line@) == Some(t@),
            None => command_of(line@) == None::<Seq<u8>>,
        },
{
    proof {
        reveal_strlit("id");
        reveal_strlit("ls");
        reveal_strlit("cat");
        reveal_strlit("echo");
        reveal_strlit("uid=1000(user) gid=1000(user) groups=1000(user)");
        reveal_strlit("info.txt  passwords.txt");
        reveal_strlit("sh: ");
        reveal_strlit(": command not found...");
    }
    let ts = split_whitespace(line);
    let ghost tv = ts@.map_values(|t: Vec<u8>| t@);
    if ts.len() == 0 {
        return None;
    }
    let name = &ts[0];
    assert(tv[0] == name@);
    let text = if bytes_eq(name, &ascii_bytes("id")) {
        ascii_bytes("uid=1000(user) gid=1000(user) groups=1000(user)")
    } else if bytes_eq(name, &ascii_bytes("ls")) {
        ascii_bytes("info.txt  passwords.txt")
    } else if bytes_eq(name, &ascii_bytes("cat")) {
        Vec::new()
    } else if bytes_eq(name, &ascii_bytes("echo")) {
        assert(tv.skip(1) =~= tv.drop_first());
        join_tokens(&ts, 1)
    } else {
        let mut t = ascii_bytes("sh: ");
        push_all(&mut t, name);
        push_all(&mut t, &ascii_bytes(": command not found..."));
        t
    };
    Some(text)
}

/// The pending line must never hold a carriage return.
pub open spec fn no_enter(b: Seq<u8>) -> bool {
    forall|i: int| 0 <= i < b.len() ==> !is_enter(b[i])
}

/// A line editor over a fake shell.
pub struct FakeShell {
    buffer: Vec<u8>,
    env: Environment,
}

impl FakeShell {
    /// Bytes typed since the last completed or interrupted line.
    pub closed spec fn pending(&self) -> Seq<u8> {
        self.buffer@
    }

    /// The shell's variables.
    pub closed spec fn vars(&self) -> Vars {
        self.env.vars_view()
    }

    /// The shell's working directory.
    pub closed spec fn cwd(&self) -> Seq<u8> {
        self.env.cwd()
    }

    /// The shell's user name.
    pub closed spec fn user(&self) -> Seq<u8> {
        self.env.user()
    }

    /// The shell's invariant: no carriage return is pending, names are unique.
    pub closed spec fn wf(&self) -> bool {
        no_enter(self.buffer@) && unique_names(self.env.vars_view())
    }

    /// A shell with nothing pending and the default variables.
    pub fn new() -> (r: FakeShell)
        ensures
            r.wf(),
            r.pending() == Seq::<u8>::empty(),
            r.vars() == default_vars(),
            r.cwd() == Seq::<u8>::empty(),
            r.user() == Seq::<u8>::empty(),
    {
        FakeShell { buffer: Vec::new(), env: Environment::new() }
    }

    /// The prompt for the current variables.
    pub fn prompt(&self) -> (r: Vec<u8>)
        ensures
            r@ == prompt_of(self.vars()),
    {
        self.env.prompt()
    }

    /// `line` with its variable references replaced.
    pub fn expand(&self, line: &Vec<u8>) -> (r: Vec<u8>)
        ensures
            r@ == expand_of(self.vars(), line@),
    {
        self.env.expand(line)
    }

    /// Output of an expanded line: the command's text and a line break
    /// (nothing for a blank line), then the prompt.
    pub fn execute(&self, line: &Vec<u8>) -> (r: Vec<u8>)
        ensures
            r@ == execute_of(self.vars(), line@),
    {
        proof {
            reveal_strlit("\r\n");
        }
        let mut out: Vec<u8> = Vec::new();
        match command_output(line) {
            Some(t) => {
                push_all(&mut out, &t);
                push_all(&mut out, &ascii_bytes("\r\n"));
            },
            None => {},
        }
        push_all(&mut out, &self.prompt());
        proof {
            if command_of(line@) is None {
                assert(out@ =~= prompt_of(self.vars()));
            }
        }
        out
    }

    /// Output of completing the pending line.
    pub fn execute_buffer(&self) -> (r: Vec<u8>)
        ensures
            r@ == cycle_of(self.vars(), self.pending()),
    {
        proof {
            reveal_strlit("\r\n");
        }
        let mut out = ascii_bytes("\r\n");
        let line = decode_lossy(&self.buffer);
        let expanded = self.expand(&line);
        push_all(&mut out, &self.execute(&expanded));
        out
    }

    /// Feeds input bytes to the line editor and returns what to echo.
    pub fn feed(&mut self, data: &[u8]) -> (r: Vec<u8>)
        requires
            old(self).wf(),
        ensures
            final(self).wf(),
            final(self).vars() == old(self).vars(),
            final(self).cwd() == old(self).cwd(),
            final(self).user() == old(self).user(),
            (final(self).pending(), r@) == feed_of(old(self).vars(), old(self).pending(), data@),
    {
        let ghost vars = self.vars();
        let ghost start = self.pending();
        let mut stdout: Vec<u8> = Vec::new();
        let mut i: usize = 0;
        assert(data@.take(0) =~= Seq::<u8>::empty());
        while i < data.len()
            invariant
                i <= data@.len(),
                self.wf(),
                self.vars() == vars,
                self.cwd() == old(self).cwd(),
                self.user() == old(self).user(),
                (self.pending(), stdout@) == feed_of(vars, start, data@.take(i as int)),
            decreases data@.len() - i,
        {
            let c = data[i];
            assert(data@.take(i + 1).drop_last() =~= data@.take(i as int));
            let ghost prev = (self.pending(), stdout@);
            if c == 0x0du8 {
                let out = self.execute_buffer();
                push_all(&mut stdout, &out);
                self.buffer = Vec::new();
            } else if c == 0x03u8 {
                proof {
                    reveal_strlit("^C\r\n");
                }
                stdout = ascii_bytes("^C\r\n");
                push_all(&mut stdout, &self.prompt());
                self.buffer = Vec::new();
            } else if c == 0x7fu8 {
                stdout.insert(0, 0x0du8);
                stdout.pop();
                if self.buffer.len() > 0 {
                    self.buffer.pop();
                }
                assert(stdout@ =~= (seq![0x0du8] + prev.1).drop_last());
            } else {
                stdout.push(c);
                self.buffer.push(c);
            }
            assert(no_enter(self.buffer@));
            assert((self.pending(), stdout@) =~= step(vars, prev, c));
            i = i + 1;
        }
        assert(data@.take(data@.len() as int) =~= data@);
        stdout
    }
}

/// `t` is a suffix of `s`.
pub open spec fn ends_with(s: Seq<u8>, t: Seq<u8>) -> bool {
    t.len() <= s.len() && s.subrange(s.len() - t.len(), s.len() as int) == t
}

/// Plain bytes are echoed as they are and added to the pending line.
pub proof fn lemma_feed_plain(vars: Vars, pending: Seq<u8>, line: Seq<u8>)
    requires
        forall|i: int| 0 <= i < line.len() ==> is_plain(line[i]),
    ensures
        feed_of(vars, pending, line) == (pending + line, line),
    decreases line.len(),
{
    if line.len() == 0 {
        assert(pending + line =~= pending);
    } else {
        lemma_feed_plain(vars, pending, line.drop_last());
        assert(pending + line =~= (pending + line.drop_last()).push(line.last()));
        assert(line =~= line.drop_last().push(line.last()));
    }
}

/// Completing any pending line ends with a line break and the prompt.
pub proof fn lemma_cycle_ends_with_prompt(vars: Vars, pending: Seq<u8>)
    ensures
        ends_with(cycle_of(vars, pending), ascii("\r\n"@) + prompt_of(vars)),
{
    let c = cycle_of(vars, pending);
    let suffix = ascii("\r\n"@) + prompt_of(vars);
    let line = expand_of(vars, decoded(pending));
    match command_of(line) {
        Some(t) => {
            assert(c =~= (ascii("\r\n"@) + t) + suffix);
        },
        None => {
            assert(c =~= suffix);
        },
    }
    assert(c.subrange(c.len() - suffix.len(), c.len() as int) =~= suffix);
}

/// Plain bytes followed by a carriage return run exactly one command cycle on
/// the whole pending line: the output is the echo followed by that cycle's
/// output, which ends with a line break and the prompt, and nothing stays
/// pending.
pub proof fn lemma_line_then_enter(vars: Vars, pending: Seq<u8>, line: Seq<u8>)
    requires
        forall|i: int| 0 <= i < line.len() ==> is_plain(line[i]),
    ensures
        feed_of(vars, pending, line.push(0x0du8)) == (
            Seq::<u8>::empty(),
            line + cycle_of(vars, pending + line),
        ),
        ends_with(
            feed_of(vars, pending, line.push(0x0du8)).1,
            ascii("\r\n"@) + prompt_of(vars),
        ),
{
    lemma_feed_plain(vars, pending, line);
    assert(line.push(0x0du8).drop_last() =~= line);
    lemma_cycle_ends_with_prompt(vars, pending + line);
    let c = cycle_of(vars, pending + line);
    let out = line + c;
    let suffix = ascii("\r\n"@) + prompt_of(vars);
    assert(out.subrange(out.len() - suffix.len(), out.len() as int) =~= c.subrange(
        c.len() - suffix.len(),
        c.len() as int,
    ));
}

/// Erasing with nothing pending leaves nothing pending.
pub proof fn lemma_erase_on_empty(vars: Vars, out: Seq<u8>)
    ensures
        step(vars, (Seq::empty(), out), 0x7fu8).0 == Seq::<u8>::empty(),
        feed_of(vars, Seq::empty(), seq![0x7fu8]) == (Seq::<u8>::empty(), Seq::<u8>::empty()),
{
    assert(seq![0x7fu8].drop_last() =~= Seq::<u8>::empty());
    assert(feed_of(vars, Seq::empty(), Seq::empty()) == (Seq::<u8>::empty(), Seq::<u8>::empty()));
    assert((seq![0x0du8] + Seq::<u8>::empty()).drop_last() =~= Seq::<u8>::empty());
}

/// An interrupt discards whatever the same input produced before it: the
/// output is exactly `^C`, a line break and the prompt, and nothing stays
/// pending.
pub proof fn lemma_interrupt_discards(vars: Vars, pending: Seq<u8>, data: Seq<u8>)
    ensures
        feed_of(vars, pending, data.push(0x03u8)) == (
            Seq::<u8>::empty(),
            ascii("^C\r\n"@) + prompt_of(vars),
        ),
{
    assert(data.push(0x03u8).drop_last() =~= data);
}

/// Expansion changes no line without a `$`, so applying it twice gives what
/// applying it once gives.
pub proof fn lemma_expand_without_dollar(vars: Vars, line: Seq<u8>)
    requires
        !line.contains(0x24u8),
    ensures
        expand_of(vars, line) == line,
        expand_of(vars, expand_of(vars, line)) == expand_of(vars, line),
{
    lemma_expand_first_without_dollar(vars, vars.len(), line);
}

proof fn lemma_expand_first_without_dollar(vars: Vars, n: nat, line: Seq<u8>)
    requires
        !line.contains(0x24u8),
    ensures
        expand_first(vars, n, line) == line,
    decreases n,
{
    if n > 0 && n <= vars.len() {
        lemma_expand_first_without_dollar(vars, (n - 1) as nat, line);
        let pat = seq![0x24u8] + vars[n - 1].0;
        assert forall|i: int| 0 <= i < line.len() implies line[i] != pat[0] by {
            if line[i] == 0x24u8 {
                assert(line.contains(0x24u8));
            }
        }
        lemma_replace_absent(line, pat, vars[n - 1].1);
    }
}

/// `$NAME` occurs in `line` for none of the variables.
pub open spec fn no_references(vars: Vars, line: Seq<u8>) -> bool {
    forall|k: int, i: int| 0 <= k < vars.len() ==> !occurs_at(line, i, seq![0x24u8] + vars[k].0)
}

/// Expansion leaves a line that references no variable as it is, so applying
/// it twice gives what applying it once gives.
pub proof fn lemma_expand_without_references(vars: Vars, line: Seq<u8>)
    requires
        no_references(vars, line),
    ensures
        expand_of(vars, line) == line,
        expand_of(vars, expand_of(vars, line)) == expand_of(vars, line),
{
    lemma_expand_first_without_references(vars, vars.len(), line);
}

proof fn lemma_expand_first_without_references(vars: Vars, n: nat, line: Seq<u8>)
    requires
        no_references(vars, line),
    ensures
        expand_first(vars, n, line) == line,
    decreases n,
{
    if n > 0 && n <= vars.len() {
        lemma_expand_first_without_references(vars, (n - 1) as nat, line);
        let pat = seq![0x24u8] + vars[n - 1].0;
        assert forall|i: int| !occurs_at(line, i, pat) by {
            assert(!occurs_at(line, i, seq![0x24u8] + vars[n - 1].0));
        }
        lemma_replace_no_occurrence(line, pat, vars[n - 1].1);
    }
}

/// A first token that names no builtin gives `sh: NAME: command not found...`.
pub proof fn lemma_unknown_command(line: Seq<u8>)
    requires
        tokens(line).len() > 0,
        tokens(line)[0] != ascii("id"@),
        tokens(line)[0] != ascii("ls"@),
        tokens(line)[0] != ascii("cat"@),
        tokens(line)[0] != ascii("echo"@),
    ensures
        command_of(line) == Some(
            ascii("sh: "@) + tokens(line)[0] + ascii(": command not found..."@),
        ),
{
}

} // verus!
