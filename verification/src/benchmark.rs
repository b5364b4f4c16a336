//! # Benchmark runs
//!
//! What a benchmark run hands to the timing tool `hyperfine`: the
//! arguments that are made of the settings of the run.
use vstd::prelude::*;
use vstd::string::StringExecFns;

verus! {

/// The settings of a run as the model has them: texts in place of
/// strings.
pub struct RunSettings {
    pub commits: Option<Seq<Seq<char>>>,
    pub cleanup: Option<Seq<char>>,
    pub prepare: Option<Seq<char>>,
    pub setup: Option<Seq<char>>,
    pub command: Seq<char>,
}

/// The texts of strings.
pub open spec fn texts(strings: Seq<String>) -> Seq<Seq<char>> {
    strings.map_values(|s: String| s@)
}

/// Texts in a row, with `separator` between them.
pub open spec fn joined(items: Seq<Seq<char>>, separator: Seq<char>) -> Seq<char>
    decreases items.len(),
{
    if items.len() == 0 {
        Seq::empty()
    } else if items.len() == 1 {
        items[0]
    } else {
        joined(items.drop_last(), separator) + separator + items.last()
    }
}

/// The arguments that let the timing tool run once for each commit.
pub open spec fn commit_arguments(settings: RunSettings) -> Seq<Seq<char>> {
    match settings.commits {
        Some(ids) => seq!["--parameter-list"@, "commit"@, joined(ids, ","@)],
        None => Seq::empty(),
    }
}

/// The arguments for a command with an option of its own.
pub open spec fn option_arguments(option: Seq<char>, command: Option<Seq<char>>) -> Seq<
    Seq<char>,
> {
    match command {
        Some(cmd) => seq![option, cmd],
        None => Seq::empty(),
    }
}

/// The arguments for what is done before the timing: with commits, the
/// commit is checked out, and then comes the setup of the run where it
/// has one. Without commits there is no setup.
pub open spec fn setup_arguments(settings: RunSettings) -> Seq<Seq<char>> {
    match (settings.setup, settings.commits) {
        (Some(scmd), Some(_)) => seq!["--setup"@, "git checkout {commit} && "@ + scmd],
        (None, Some(_)) => seq!["--setup"@, "git checkout {commit}"@],
        _ => Seq::empty(),
    }
}

/// All arguments of a run: those for the commits, the cleanup, the
/// preparation and the setup, and at the end the command that is timed.
pub open spec fn run_arguments(settings: RunSettings) -> Seq<Seq<char>> {
    commit_arguments(settings) + option_arguments("--cleanup"@, settings.cleanup)
        + option_arguments("--prepare"@, settings.prepare) + setup_arguments(settings)
        + seq![settings.command]
}

/// `items` in a row, with `separator` between them.
pub fn join(items: &Vec<String>, separator: &str) -> (r: String)
    ensures
        r@ == joined(texts(items@), separator@),
{
    let mut result = String::new();
    let mut i: usize = 0;
    while i < items.len()
        invariant
            i <= items@.len(),
            result@ == joined(texts(items@).take(i as int), separator@),
        decreases items.len() - i,
    {
        proof {
            let now = texts(items@).take(i + 1);
            assert(now.drop_last() == texts(items@).take(i as int));
            assert(now.last() == items@[i as int]@);
            if i == 0 {
                assert(now[0] == items@[0]@);
                assert(joined(texts(items@).take(0), separator@) == Seq::<char>::empty());
            }
        }
        if i > 0 {
            result.append(separator);
        }
        result.append(items[i].as_str());
        i += 1;
    }
    proof {
        assert(texts(items@).take(i as int) == texts(items@));
    }
    result
}

/// The settings of a benchmark run.
#[derive(Debug)]
pub struct Run {
    pub commits: Option<Vec<String>>,
    pub cleanup: Option<String>,
    pub prepare: Option<String>,
    pub setup: Option<String>,
    pub command: String,
}

impl View for Run {
    type V = RunSettings;

    open spec fn view(&self) -> RunSettings {
        RunSettings {
            commits: match self.commits {
                Some(ids) => Some(texts(ids@)),
                None => None,
            },
            cleanup: match self.cleanup {
                Some(cmd) => Some(cmd@),
                None => None,
            },
            prepare: match self.prepare {
                Some(cmd) => Some(cmd@),
                None => None,
            },
            setup: match self.setup {
                Some(cmd) => Some(cmd@),
                None => None,
            },
            command: self.command@,
        }
    }
}

impl Run {
    /// The arguments of the run for the timing tool.
    pub fn to_hyperfine_params(&self) -> (r: Vec<String>)
        ensures
            texts(r@) == run_arguments(self@),
    {
        let mut result: Vec<String> = Vec::new();
        assert(texts(result@) == Seq::<Seq<char>>::empty());
        match &self.commits {
            Some(ids) => {
                result.push(String::from_str("--parameter-list"));
                result.push(String::from_str("commit"));
                result.push(join(ids, ","));
            },
            None => (),
        }
        assert(texts(result@) == commit_arguments(self@));
        let ghost first = result@;
        match &self.cleanup {
            Some(cmd) => {
                result.push(String::from_str("--cleanup"));
                result.push(cmd.clone());
            },
            None => (),
        }
        assert(texts(result@) == texts(first) + option_arguments("--cleanup"@, self@.cleanup));
        let ghost second = result@;
        match &self.prepare {
            Some(cmd) => {
                result.push(String::from_str("--prepare"));
                result.push(cmd.clone());
            },
            None => (),
        }
        assert(texts(result@) == texts(second) + option_arguments("--prepare"@, self@.prepare));
        let ghost third = result@;
        match (&self.setup, &self.commits) {
            (Some(scmd), Some(_)) => {
                result.push(String::from_str("--setup"));
                let mut concat = String::from_str("git checkout {commit} && ");
                concat.append(scmd.as_str());
                result.push(concat);
            },
            (None, Some(_)) => {
                result.push(String::from_str("--setup"));
                result.push(String::from_str("git checkout {commit}"));
            },
            _ => (),
        }
        assert(texts(result@) == texts(third) + setup_arguments(self@));
        let ghost fourth = result@;
        result.push(self.command.clone());
        assert(texts(result@) == texts(fourth) + seq![self@.command]);
        result
    }
}

/// Removes one line ending from the end of `line`: a line feed, and the
/// carriage return before it where there is one.
pub open spec fn trimmed(line: Seq<u8>) -> Seq<u8> {
    if line.len() > 0 && line.last() == 10 {
        let rest = line.drop_last();
        if rest.len() > 0 && rest.last() == 13 {
            rest.drop_last()
        } else {
            rest
        }
    } else {
        line
    }
}

/// Removes one line ending from the end of `line`.
pub fn trim_newline(line: &mut Vec<u8>)
    ensures
        final(line)@ == trimmed(old(line)@),
{
    let n: usize = line.len();
    if n > 0 && line[n - 1] == 10u8 {
        line.pop();
        let m: usize = line.len();
        if m > 0 && line[m - 1] == 13u8 {
            line.pop();
        }
    }
}

} // verus!
