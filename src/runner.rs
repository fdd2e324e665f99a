use vstd::prelude::*;
use vstd::string::*;
use crate::error::Error;
use crate::task::TaskConfig;

verus! {

/// How to start one task: `<shell> -c <payload>` in `dir`.
pub struct Invocation {
    pub shell: String,
    pub payload: String,
    pub dir: String,
}

/// Words joined by single spaces.
pub open spec fn spaced(words: Seq<Seq<char>>) -> Seq<char>
    decreases words.len(),
{
    if words.len() == 0 {
        Seq::empty()
    } else if words.len() == 1 {
        words[0]
    } else {
        spaced(words.drop_last()) + " "@ + words.last()
    }
}

/// The command with the user arguments appended, space-separated.
pub open spec fn command_line(command: Seq<char>, args: Seq<Seq<char>>) -> Seq<char> {
    if args.len() == 0 {
        command
    } else {
        command + " "@ + spaced(args)
    }
}

/// `rel` resolved against `base`: an absolute `rel` stands alone, otherwise
/// it follows `base` after one separator.
pub open spec fn joined_path(base: Seq<char>, rel: Seq<char>) -> Seq<char> {
    if rel.len() > 0 && rel[0] == '/' {
        rel
    } else if base.len() == 0 || base.last() == '/' {
        base + rel
    } else {
        base + "/"@ + rel
    }
}

/// The invocation of a task: its shell or `sh`; its command with the user
/// arguments, or its script alone; its directory under `root`.
pub open spec fn invocation_of(t: TaskConfig, root: Seq<char>, args: Seq<Seq<char>>) -> (Seq<char>, Seq<char>, Seq<char>) {
    let shell = match t.shell {
        Some(s) => s@,
        None => "sh"@,
    };
    let payload = match (t.command, t.script) {
        (Some(c), None) => command_line(c@, args),
        (None, Some(s)) => s@,
        _ => Seq::empty(),
    };
    let dir = match t.working_dir {
        Some(w) => joined_path(root, w@),
        None => root,
    };
    (shell, payload, dir)
}

/// Joins words with single spaces.
pub fn join_spaced(words: &Vec<String>) -> (r: String)
    ensures
        r@ == spaced(words@.map_values(|s: String| s@)),
{
    let ghost view = words@.map_values(|s: String| s@);
    let mut r = String::new();
    let mut i: usize = 0;
    while i < words.len()
        invariant
            i <= words.len(),
            view == words@.map_values(|s: String| s@),
            r@ == spaced(view.subrange(0, i as int)),
        decreases words.len() - i,
    {
        if i > 0 {
            r.append(" ");
        }
        r.append(words[i].as_str());
        proof {
            assert(view.subrange(0, i + 1).drop_last() =~= view.subrange(0, i as int));
        }
        i = i + 1;
    }
    assert(view.subrange(0, words.len() as int) =~= view);
    r
}

/// Resolves `rel` against `base` as a path.
pub fn join_path(base: &String, rel: &String) -> (r: String)
    ensures
        r@ == joined_path(base@, rel@),
{
    let rl = rel.as_str().unicode_len();
    if rl > 0 && rel.as_str().get_char(0) == '/' {
        return rel.clone();
    }
    proof {
        reveal_strlit("/");
    }
    let bl = base.as_str().unicode_len();
    let mut r = base.clone();
    assert(!(rel@.len() > 0 && rel@[0] == '/'));
    if bl == 0 || base.as_str().get_char(bl - 1) == '/' {
        r.append(rel.as_str());
    } else {
        r.append("/");
        let ghost mid = r@;
        assert(mid == base@ + "/"@);
        r.append(rel.as_str());
        assert(base@.len() == 0 || base@.last() != '/');
        assert(r@ == base@ + "/"@ + rel@);
    }
    r
}

/// Assembles how to run `task_config` from `working_dir` with `args`. Fails
/// when the task has both a command and a script, or neither.
pub fn resolve_invocation(task_config: &TaskConfig, working_dir: &String, args: &Vec<String>) -> (r: Result<Invocation, Error>)
    ensures
        match (task_config.command, task_config.script) {
            (Some(_), Some(_)) => r == Err::<Invocation, Error>(Error::CommandAndScript),
            (None, None) => r == Err::<Invocation, Error>(Error::NoCommandOrScript),
            _ => r is Ok && {
                let inv = r->Ok_0;
                (inv.shell@, inv.payload@, inv.dir@) == invocation_of(
                    *task_config,
                    working_dir@,
                    args@.map_values(|s: String| s@),
                )
            },
        },
{
    let payload = match (&task_config.command, &task_config.script) {
        (Some(command), None) => {
            if args.len() == 0 {
                command.clone()
            } else {
                let mut p = command.clone();
                p.append(" ");
                let rest = join_spaced(args);
                p.append(rest.as_str());
                p
            }
        },
        (None, Some(script)) => script.clone(),
        (Some(_), Some(_)) => {
            return Err(Error::CommandAndScript);
        },
        (None, None) => {
            return Err(Error::NoCommandOrScript);
        },
    };
    let shell = match &task_config.shell {
        Some(s) => s.clone(),
        None => String::from_str("sh"),
    };
    let dir = match &task_config.working_dir {
        Some(w) => join_path(working_dir, w),
        None => working_dir.clone(),
    };
    Ok(Invocation { shell, payload, dir })
}

} // verus!
