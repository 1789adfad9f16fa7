//! Folding a script's exit statuses into one status.
//!
//! Every command of a script is run unconditionally; the status the script
//! reports afterwards is the first strictly positive status seen, or 0 when
//! no command failed.

use vstd::prelude::*;

verus! {

/// The status a script reports: the first strictly positive status among
/// `codes`, or 0 if there is none.
pub open spec fn spec_script_status(codes: Seq<i32>) -> i32
    decreases codes.len(),
{
    if codes.len() == 0 {
        0
    } else if codes[0] > 0 {
        codes[0]
    } else {
        spec_script_status(codes.drop_first())
    }
}

/// Appending one more status keeps an already-seen failure and otherwise
/// adopts the new status when it is a failure.
pub proof fn lemma_script_status_push(codes: Seq<i32>, c: i32)
    ensures
        spec_script_status(codes.push(c)) == (if spec_script_status(codes) > 0 {
            spec_script_status(codes)
        } else if c > 0 {
            c
        } else {
            0i32
        }),
    decreases codes.len(),
{
    if codes.len() == 0 {
        assert(codes.push(c)[0] == c);
        assert(codes.push(c).drop_first() =~= Seq::<i32>::empty());
        if c > 0 {
            assert(spec_script_status(codes.push(c)) == c);
        } else {
            assert(spec_script_status(codes.push(c)) == spec_script_status(Seq::<i32>::empty()));
        }
    } else {
        assert(codes.push(c)[0] == codes[0]);
        assert(codes.push(c).drop_first() =~= codes.drop_first().push(c));
        lemma_script_status_push(codes.drop_first(), c);
        if codes[0] > 0 {
            assert(spec_script_status(codes.push(c)) == codes[0]);
            assert(spec_script_status(codes) == codes[0]);
        } else {
            assert(spec_script_status(codes.push(c)) == spec_script_status(
                codes.drop_first().push(c),
            ));
            assert(spec_script_status(codes) == spec_script_status(codes.drop_first()));
        }
    }
}

/// Folds a list of exit statuses as a script does: the result is the first
/// strictly positive status, or 0 when all commands succeeded.
pub fn script_status(codes: &Vec<i32>) -> (r: i32)
    ensures
        r == spec_script_status(codes@),
{
    let mut i: usize = 0;
    let mut first_fail: i32 = 0;
    while i < codes.len()
        invariant
            0 <= i <= codes@.len(),
            first_fail >= 0,
            first_fail == spec_script_status(codes@.take(i as int)),
        decreases codes@.len() - i,
    {
        let c = codes[i];
        proof {
            lemma_script_status_push(codes@.take(i as int), codes@[i as int]);
            assert(codes@.take(i as int + 1) =~= codes@.take(i as int).push(codes@[i as int]));
        }
        if first_fail == 0 && c > 0 {
            first_fail = c;
        }
        i += 1;
    }
    proof {
        assert(codes@.take(codes@.len() as int) =~= codes@);
    }
    first_fail
}

/// Walks one script: hands out its commands in declared order, takes the
/// exit status observed for each, and reports the folded script status once
/// every command has run.
pub struct ScriptRunner {
    script: Vec<String>,
    next: usize,
    first_fail: i32,
    codes: Ghost<Seq<i32>>,
}

impl ScriptRunner {
    /// The commands of the script, in declared order.
    pub closed spec fn commands(&self) -> Seq<Seq<char>> {
        self.script@.map_values(|s: String| s@)
    }

    /// The exit statuses recorded so far, in the order they were recorded.
    pub closed spec fn codes_seen(&self) -> Seq<i32> {
        self.codes@
    }

    /// The index of the next command to run.
    pub closed spec fn pos(&self) -> int {
        self.next as int
    }

    /// One status has been recorded for each command already handed out,
    /// and the running fold matches the statuses seen.
    pub closed spec fn wf(&self) -> bool {
        &&& self.next <= self.script.len()
        &&& self.codes@.len() == self.next as int
        &&& self.first_fail == spec_script_status(self.codes@)
        &&& self.first_fail >= 0
    }

    pub fn new(script: Vec<String>) -> (r: ScriptRunner)
        ensures
            r.wf(),
            r.commands() == script@.map_values(|s: String| s@),
            r.pos() == 0,
            r.codes_seen() == Seq::<i32>::empty(),
    {
        ScriptRunner { script, next: 0, first_fail: 0, codes: Ghost(Seq::empty()) }
    }

    /// True once every command has been handed out and recorded.
    pub fn done(&self) -> (r: bool)
        requires
            self.wf(),
        ensures
            r <==> self.pos() == self.commands().len(),
    {
        self.next == self.script.len()
    }

    /// The command to run next.
    pub fn current_command(&self) -> (c: &String)
        requires
            self.wf(),
            self.pos() < self.commands().len(),
        ensures
            c@ == self.commands()[self.pos()],
    {
        &self.script[self.next]
    }

    /// Records the exit status of the command just run and moves on.
    pub fn record(&mut self, code: i32)
        requires
            old(self).wf(),
            old(self).pos() < old(self).commands().len(),
        ensures
            final(self).wf(),
            final(self).commands() == old(self).commands(),
            final(self).pos() == old(self).pos() + 1,
            final(self).codes_seen() == old(self).codes_seen().push(code),
    {
        proof {
            lemma_script_status_push(self.codes@, code);
        }
        if self.first_fail == 0 && code > 0 {
            self.first_fail = code;
        }
        self.codes = Ghost(self.codes@.push(code));
        self.next = self.next + 1;
    }

    /// The script's reported status: the first strictly positive status
    /// among the recorded ones, or 0.
    pub fn status(&self) -> (r: i32)
        requires
            self.wf(),
            self.pos() == self.commands().len(),
        ensures
            r == spec_script_status(self.codes_seen()),
    {
        self.first_fail
    }
}

} // verus!
