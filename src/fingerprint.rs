use vstd::prelude::*;
use vstd::string::*;
use vstd::utf8::encode_utf8;
use crate::order::{canonical, sorted_unique};
use crate::task::{TaskConfig, names_view};

verus! {

/// The SHA-256 digest of `data`, as lowercase hex.
pub uninterp spec fn sha256_hex_of(data: Seq<u8>) -> Seq<char>;

/// A lowercase hexadecimal digit.
pub open spec fn is_hex_digit(c: char) -> bool {
    ('0' as u32 <= c as u32 <= '9' as u32) || ('a' as u32 <= c as u32 <= 'f' as u32)
}

/// 64 lowercase hexadecimal digits: a 256-bit key.
pub open spec fn is_hex_key(s: Seq<char>) -> bool {
    s.len() == 64 && forall|i: int| 0 <= i < 64 ==> is_hex_digit(#[trigger] s[i])
}

/// Relies on sha2's `Sha256::digest` over `data`, written with the `LowerHex`
/// impl of its 32-byte output (two digits of `0-9a-f` per byte); the result
/// depends on `data` alone.
#[verifier::external_body]
pub(crate) fn sha256_hex(data: &[u8]) -> (r: String)
    ensures
        r@ == sha256_hex_of(data@),
        is_hex_key(r@),
{
    let digest = <sha2::Sha256 as sha2::Digest>::digest(data);
    format!("{:x}", digest)
}

/// A declared input file as read for hashing.
pub struct InputFile {
    /// The path relative to the working directory.
    pub path: String,
    pub size: u64,
    /// The digest of the file's contents.
    pub digest: String,
}

/// The decimal digit `d`.
pub open spec fn digit(d: nat) -> char {
    seq!['0', '1', '2', '3', '4', '5', '6', '7', '8', '9'][d as int]
}

/// `n` in decimal.
pub open spec fn decimal(n: nat) -> Seq<char>
    decreases n,
{
    if n < 10 {
        seq![digit(n)]
    } else {
        decimal(n / 10).push(digit(n % 10))
    }
}

/// A length-prefixed text: its length in decimal, `:`, then the text.
pub open spec fn part(s: Seq<char>) -> Seq<char> {
    decimal(s.len()) + seq![':'] + s
}

/// An optional text: `-` when absent, `+` and the part when present.
pub open spec fn opt_part(o: Option<String>) -> Seq<char> {
    match o {
        Some(s) => seq!['+'] + part(s@),
        None => seq!['-'],
    }
}

/// The parts of each text, one after another.
pub open spec fn parts(s: Seq<Seq<char>>) -> Seq<char>
    decreases s.len(),
{
    if s.len() == 0 {
        Seq::empty()
    } else {
        parts(s.drop_last()) + part(s.last())
    }
}

/// A counted group: the count in decimal, `#`, then the body.
pub open spec fn group(count: nat, body: Seq<char>) -> Seq<char> {
    decimal(count) + seq!['#'] + body
}

/// An optional list, sorted and without repeats.
pub open spec fn list_part(o: Option<Vec<String>>) -> Seq<char> {
    match o {
        Some(v) => {
            let c = canonical(names_view(v@).to_set());
            seq!['+'] + group(c.len(), parts(c))
        },
        None => seq!['-'],
    }
}

/// The optional timeout.
pub open spec fn timeout_part(o: Option<u32>) -> Seq<char> {
    match o {
        Some(t) => seq!['+'] + part(decimal(t as nat)),
        None => seq!['-'],
    }
}

/// A letter, digit or underscore.
pub open spec fn ident_char(c: char) -> bool {
    ('a' as u32 <= c as u32 <= 'z' as u32) || ('A' as u32 <= c as u32 <= 'Z' as u32) || ('0' as u32
        <= c as u32 <= '9' as u32) || c == '_'
}

/// At `i`, `text` holds `$NAME` not followed by a letter, digit or underscore,
/// or `${NAME}`.
pub open spec fn ref_at(text: Seq<char>, name: Seq<char>, i: int) -> bool {
    let m = name.len() as int;
    &&& m > 0
    &&& 0 <= i < text.len()
    &&& text[i] == '$'
    &&& {
        ||| (i + 1 + m <= text.len() && text.subrange(i + 1, i + 1 + m) == name && (i + 1 + m
            == text.len() || !ident_char(text[i + 1 + m])))
        ||| (i + 3 + m <= text.len() && text[i + 1] == '{' && text.subrange(i + 2, i + 2 + m) == name
            && text[i + 2 + m] == '}')
    }
}

/// `text` refers to the variable `name`.
pub open spec fn references(text: Seq<char>, name: Seq<char>) -> bool {
    exists|i: int| #[trigger] ref_at(text, name, i)
}

/// The task's command or script refers to the variable `name`.
pub open spec fn referenced_by(t: TaskConfig, name: Seq<char>) -> bool {
    ||| (t.command is Some && references(t.command->Some_0@, name))
    ||| (t.script is Some && references(t.script->Some_0@, name))
}

/// The names of the environment variables that the task refers to.
pub open spec fn env_names(t: TaskConfig, env: Seq<(String, String)>) -> Set<Seq<char>> {
    Set::new(|n: Seq<char>| exists|i: int| 0 <= i < env.len() && #[trigger] env[i].0@ == n && referenced_by(t, n))
}

/// The value of the last variable named `n`.
pub open spec fn value_of(env: Seq<(String, String)>, n: Seq<char>) -> Seq<char>
    decreases env.len(),
{
    if env.len() == 0 {
        Seq::empty()
    } else if env.last().0@ == n {
        env.last().1@
    } else {
        value_of(env.drop_last(), n)
    }
}

/// `NAME` and value parts of each name.
pub open spec fn env_body(env: Seq<(String, String)>, names: Seq<Seq<char>>) -> Seq<char>
    decreases names.len(),
{
    if names.len() == 0 {
        Seq::empty()
    } else {
        env_body(env, names.drop_last()) + part(names.last()) + part(value_of(env, names.last()))
    }
}

/// The size and digest parts of the last record for `path`, or `-`.
pub open spec fn record_part(files: Seq<InputFile>, path: Seq<char>) -> Seq<char>
    decreases files.len(),
{
    if files.len() == 0 {
        seq!['-']
    } else if files.last().path@ == path {
        part(decimal(files.last().size as nat)) + part(files.last().digest@)
    } else {
        record_part(files.drop_last(), path)
    }
}

/// The path and record parts of each path.
pub open spec fn files_body(files: Seq<InputFile>, paths: Seq<Seq<char>>) -> Seq<char>
    decreases paths.len(),
{
    if paths.len() == 0 {
        Seq::empty()
    } else {
        files_body(files, paths.drop_last()) + part(paths.last()) + record_part(files, paths.last())
    }
}

/// The paths of the records.
pub open spec fn paths_of(files: Seq<InputFile>) -> Set<Seq<char>> {
    Set::new(|p: Seq<char>| exists|i: int| 0 <= i < files.len() && #[trigger] files[i].path@ == p)
}

/// The text that the digest is taken over: the task name, the definition, the
/// input files by path, the variables the task refers to by name, and the
/// working directory.
pub open spec fn preimage(
    task_name: Seq<char>,
    t: TaskConfig,
    env: Seq<(String, String)>,
    files: Seq<InputFile>,
    working_dir: Seq<char>,
) -> Seq<char> {
    let paths = canonical(paths_of(files));
    let names = canonical(env_names(t, env));
    part(task_name) + opt_part(t.command) + opt_part(t.script) + opt_part(t.shell) + opt_part(
        t.working_dir,
    ) + list_part(t.inputs) + list_part(t.outputs) + timeout_part(t.timeout) + group(
        paths.len(),
        files_body(files, paths),
    ) + group(names.len(), env_body(env, names)) + part(working_dir)
}

/// The cache key: the task's explicit key, or the digest of the preimage.
pub open spec fn fingerprint_of(
    task_name: Seq<char>,
    t: TaskConfig,
    env: Seq<(String, String)>,
    files: Seq<InputFile>,
    working_dir: Seq<char>,
) -> Seq<char> {
    match t.cache_key {
        Some(k) => k@,
        None => sha256_hex_of(encode_utf8(preimage(task_name, t, env, files, working_dir))),
    }
}

fn digit_text(d: u64) -> (r: &'static str)
    requires
        d < 10,
    ensures
        r@ == seq![digit(d as nat)],
{
    proof {
        reveal_strlit("0");
        reveal_strlit("1");
        reveal_strlit("2");
        reveal_strlit("3");
        reveal_strlit("4");
        reveal_strlit("5");
        reveal_strlit("6");
        reveal_strlit("7");
        reveal_strlit("8");
        reveal_strlit("9");
    }
    let r = if d == 0 {
        "0"
    } else if d == 1 {
        "1"
    } else if d == 2 {
        "2"
    } else if d == 3 {
        "3"
    } else if d == 4 {
        "4"
    } else if d == 5 {
        "5"
    } else if d == 6 {
        "6"
    } else if d == 7 {
        "7"
    } else if d == 8 {
        "8"
    } else {
        "9"
    };
    assert(r@ =~= seq![digit(d as nat)]);
    r
}

/// `n` in decimal.
pub fn decimal_string(n: u64) -> (r: String)
    ensures
        r@ == decimal(n as nat),
    decreases n,
{
    if n < 10 {
        String::from_str(digit_text(n))
    } else {
        let mut r = decimal_string(n / 10);
        r.append(digit_text(n % 10));
        r
    }
}

pub(crate) fn append_part(r: &mut String, s: &str)
    ensures
        final(r)@ == old(r)@ + part(s@),
{
    proof {
        reveal_strlit(":");
    }
    let len = s.unicode_len();
    let d = decimal_string(len as u64);
    r.append(d.as_str());
    r.append(":");
    r.append(s);
    assert(final(r)@ =~= old(r)@ + part(s@));
}

fn append_opt(r: &mut String, o: &Option<String>)
    ensures
        final(r)@ == old(r)@ + opt_part(*o),
{
    proof {
        reveal_strlit("+");
        reveal_strlit("-");
    }
    match o {
        Some(s) => {
            r.append("+");
            append_part(r, s.as_str());
            assert(final(r)@ =~= old(r)@ + opt_part(*o));
        },
        None => {
            r.append("-");
        },
    }
}

fn append_parts(r: &mut String, items: &Vec<String>)
    ensures
        final(r)@ == old(r)@ + parts(names_view(items@)),
{
    let ghost v = names_view(items@);
    let ghost start = r@;
    let mut i: usize = 0;
    assert(v.subrange(0, 0) =~= Seq::<Seq<char>>::empty());
    assert(r@ =~= start + parts(v.subrange(0, 0)));
    while i < items.len()
        invariant
            i <= items@.len(),
            v == names_view(items@),
            r@ == start + parts(v.subrange(0, i as int)),
        decreases items.len() - i,
    {
        append_part(r, items[i].as_str());
        proof {
            assert(v.subrange(0, i + 1).drop_last() =~= v.subrange(0, i as int));
            assert(r@ =~= start + parts(v.subrange(0, i + 1)));
        }
        i = i + 1;
    }
    assert(v.subrange(0, items@.len() as int) =~= v);
}

fn append_list(r: &mut String, o: &Option<Vec<String>>)
    ensures
        final(r)@ == old(r)@ + list_part(*o),
{
    proof {
        reveal_strlit("+");
        reveal_strlit("-");
        reveal_strlit("#");
    }
    match o {
        Some(v) => {
            let c = sorted_unique(v);
            r.append("+");
            let d = decimal_string(c.len() as u64);
            r.append(d.as_str());
            r.append("#");
            append_parts(r, &c);
            assert(names_view(c@).len() == c@.len());
            assert(final(r)@ =~= old(r)@ + list_part(*o));
        },
        None => {
            r.append("-");
        },
    }
}

/// The characters of `s`.
pub fn chars_of(s: &str) -> (r: Vec<char>)
    ensures
        r@ == s@,
{
    let n = s.unicode_len();
    let mut r: Vec<char> = Vec::new();
    let mut i: usize = 0;
    while i < n
        invariant
            n == s@.len(),
            i <= n,
            r@ == s@.subrange(0, i as int),
        decreases n - i,
    {
        r.push(s.get_char(i));
        assert(r@ =~= s@.subrange(0, i + 1));
        i = i + 1;
    }
    assert(r@ =~= s@);
    r
}

fn is_ident_char(c: char) -> (r: bool)
    ensures
        r == ident_char(c),
{
    let u = c as u32;
    ('a' as u32 <= u && u <= 'z' as u32) || ('A' as u32 <= u && u <= 'Z' as u32) || ('0' as u32 <= u
        && u <= '9' as u32) || c == '_'
}

fn matches_at(text: &Vec<char>, name: &Vec<char>, start: usize) -> (r: bool)
    ensures
        r == (start + name@.len() <= text@.len() && text@.subrange(start as int, start + name@.len())
            == name@),
{
    if name.len() > text.len() || start > text.len() - name.len() {
        return false;
    }
    let n = text.len();
    let mut k: usize = 0;
    while k < name.len()
        invariant
            k <= name@.len(),
            n == text@.len(),
            start + name@.len() <= n,
            forall|q: int| 0 <= q < k ==> text@[start + q] == name@[q],
        decreases name.len() - k,
    {
        if text[start + k] != name[k] {
            assert(text@.subrange(start as int, start + name@.len())[k as int] != name@[k as int]);
            return false;
        }
        k = k + 1;
    }
    assert(text@.subrange(start as int, start + name@.len()) =~= name@);
    true
}

/// Whether `text` refers to the variable `name` as `$NAME` or `${NAME}`.
pub fn refers_to(text: &Vec<char>, name: &Vec<char>) -> (r: bool)
    ensures
        r == references(text@, name@),
{
    let m = name.len();
    if m == 0 {
        return false;
    }
    let n = text.len();
    let mut i: usize = 0;
    while i < n
        invariant
            n == text@.len(),
            m == name@.len(),
            m > 0,
            i <= n,
            forall|q: int| 0 <= q < i ==> !#[trigger] ref_at(text@, name@, q),
        decreases n - i,
    {
        if text[i] == '$' {
            let plain = matches_at(text, name, i + 1) && (i + 1 + m == n || !is_ident_char(text[i + 1 + m]));
            let braced = i + 1 < n && text[i + 1] == '{' && matches_at(text, name, i + 2) && i + 2 + m < n
                && text[i + 2 + m] == '}';
            if plain || braced {
                assert(ref_at(text@, name@, i as int));
                return true;
            }
        }
        i = i + 1;
    }
    false
}

fn text_refers(text: &Option<Vec<char>>, name: &Vec<char>) -> (r: bool)
    ensures
        r == (text is Some && references(text->Some_0@, name@)),
{
    match text {
        Some(t) => refers_to(t, name),
        None => false,
    }
}

fn opt_chars(o: &Option<String>) -> (r: Option<Vec<char>>)
    ensures
        r is Some == o is Some,
        r is Some ==> r->Some_0@ == o->Some_0@,
{
    match o {
        Some(s) => Some(chars_of(s.as_str())),
        None => None,
    }
}

/// The value of the last variable named `name`.
pub fn env_value(env_vars: &Vec<(String, String)>, name: &String) -> (r: String)
    ensures
        r@ == value_of(env_vars@, name@),
{
    let mut found: Option<usize> = None;
    let mut i: usize = 0;
    while i < env_vars.len()
        invariant
            i <= env_vars@.len(),
            match found {
                Some(j) => j < i && env_vars@[j as int].0@ == name@ && value_of(env_vars@.subrange(0, i as int), name@) == env_vars@[j as int].1@,
                None => value_of(env_vars@.subrange(0, i as int), name@) == Seq::<char>::empty(),
            },
        decreases env_vars.len() - i,
    {
        assert(env_vars@.subrange(0, i + 1).drop_last() =~= env_vars@.subrange(0, i as int));
        if env_vars[i].0 == *name {
            found = Some(i);
        }
        i = i + 1;
    }
    assert(env_vars@.subrange(0, env_vars@.len() as int) =~= env_vars@);
    match found {
        Some(j) => env_vars[j].1.clone(),
        None => String::new(),
    }
}

/// The size and digest parts of the last record for `path`, or `-`.
pub fn record_text(files: &Vec<InputFile>, path: &String) -> (r: String)
    ensures
        r@ == record_part(files@, path@),
{
    proof {
        reveal_strlit("-");
    }
    let mut found: Option<usize> = None;
    let mut i: usize = 0;
    while i < files.len()
        invariant
            i <= files@.len(),
            match found {
                Some(j) => j < i && files@[j as int].path@ == path@ && record_part(files@.subrange(0, i as int), path@)
                    == part(decimal(files@[j as int].size as nat)) + part(files@[j as int].digest@),
                None => record_part(files@.subrange(0, i as int), path@) == seq!['-'],
            },
        decreases files.len() - i,
    {
        assert(files@.subrange(0, i + 1).drop_last() =~= files@.subrange(0, i as int));
        if files[i].path == *path {
            found = Some(i);
        }
        i = i + 1;
    }
    assert(files@.subrange(0, files@.len() as int) =~= files@);
    match found {
        Some(j) => {
            let mut r = String::new();
            let d = decimal_string(files[j].size);
            append_part(&mut r, d.as_str());
            append_part(&mut r, files[j].digest.as_str());
            assert(r@ =~= part(decimal(files@[j as int].size as nat)) + part(files@[j as int].digest@));
            r
        },
        None => String::from_str("-"),
    }
}

fn append_files(r: &mut String, files: &Vec<InputFile>)
    ensures
        final(r)@ == old(r)@ + group(canonical(paths_of(files@)).len(), files_body(files@, canonical(paths_of(files@)))),
{
    proof {
        reveal_strlit("#");
    }
    let mut paths: Vec<String> = Vec::new();
    let mut i: usize = 0;
    while i < files.len()
        invariant
            i <= files@.len(),
            paths@.len() == i,
            forall|k: int| 0 <= k < i ==> #[trigger] paths@[k]@ == files@[k].path@,
        decreases files.len() - i,
    {
        paths.push(files[i].path.clone());
        i = i + 1;
    }
    proof {
        assert forall|p: Seq<char>| names_view(paths@).to_set().contains(p) <==> paths_of(files@).contains(p) by {
            if names_view(paths@).to_set().contains(p) {
                let k = choose|k: int| 0 <= k < names_view(paths@).len() && names_view(paths@)[k] == p;
                assert(paths@[k]@ == files@[k].path@);
            }
            if paths_of(files@).contains(p) {
                let k = choose|k: int| 0 <= k < files@.len() && #[trigger] files@[k].path@ == p;
                assert(names_view(paths@)[k] == p);
            }
        }
        assert(names_view(paths@).to_set() =~= paths_of(files@));
    }
    let sorted = sorted_unique(&paths);
    let ghost c = names_view(sorted@);
    let d = decimal_string(sorted.len() as u64);
    r.append(d.as_str());
    r.append("#");
    let ghost start = r@;
    let mut j: usize = 0;
    assert(c.subrange(0, 0) =~= Seq::<Seq<char>>::empty());
    assert(r@ =~= start + files_body(files@, c.subrange(0, 0)));
    while j < sorted.len()
        invariant
            j <= sorted@.len(),
            c == names_view(sorted@),
            r@ == start + files_body(files@, c.subrange(0, j as int)),
        decreases sorted.len() - j,
    {
        append_part(r, sorted[j].as_str());
        let rec = record_text(files, &sorted[j]);
        r.append(rec.as_str());
        proof {
            assert(c.subrange(0, j + 1).drop_last() =~= c.subrange(0, j as int));
            assert(r@ =~= start + files_body(files@, c.subrange(0, j + 1)));
        }
        j = j + 1;
    }
    assert(c.subrange(0, sorted@.len() as int) =~= c);
    assert(final(r)@ =~= old(r)@ + group(c.len(), files_body(files@, c)));
}

fn append_env(r: &mut String, task: &TaskConfig, env_vars: &Vec<(String, String)>)
    ensures
        final(r)@ == old(r)@ + group(canonical(env_names(*task, env_vars@)).len(), env_body(env_vars@, canonical(env_names(*task, env_vars@)))),
{
    proof {
        reveal_strlit("#");
    }
    let command = opt_chars(&task.command);
    let script = opt_chars(&task.script);
    let mut selected: Vec<String> = Vec::new();
    let mut i: usize = 0;
    while i < env_vars.len()
        invariant
            i <= env_vars@.len(),
            command is Some == task.command is Some,
            command is Some ==> command->Some_0@ == task.command->Some_0@,
            script is Some == task.script is Some,
            script is Some ==> script->Some_0@ == task.script->Some_0@,
            forall|n: Seq<char>| names_view(selected@).to_set().contains(n) <==> exists|k: int|
                0 <= k < i && #[trigger] env_vars@[k].0@ == n && referenced_by(*task, n),
        decreases env_vars.len() - i,
    {
        let name = chars_of(env_vars[i].0.as_str());
        let hit = text_refers(&command, &name) || text_refers(&script, &name);
        let ghost before = names_view(selected@);
        if hit {
            selected.push(env_vars[i].0.clone());
        }
        proof {
            let after = names_view(selected@);
            let x = env_vars@[i as int].0@;
            if hit {
                assert(after =~= before.push(x));
            } else {
                assert(after =~= before);
            }
            assert forall|n: Seq<char>| after.to_set().contains(n) <==> exists|k: int|
                0 <= k < i + 1 && #[trigger] env_vars@[k].0@ == n && referenced_by(*task, n) by {
                if after.to_set().contains(n) {
                    let q = choose|q: int| 0 <= q < after.len() && after[q] == n;
                    if q < before.len() {
                        assert(before[q] == n);
                        assert(before.to_set().contains(n));
                    } else {
                        assert(env_vars@[i as int].0@ == n);
                    }
                }
                if exists|k: int| 0 <= k < i + 1 && #[trigger] env_vars@[k].0@ == n && referenced_by(*task, n) {
                    let k = choose|k: int| 0 <= k < i + 1 && #[trigger] env_vars@[k].0@ == n && referenced_by(*task, n);
                    if k < i {
                        assert(before.to_set().contains(n));
                        let q = choose|q: int| 0 <= q < before.len() && before[q] == n;
                        assert(after[q] == n);
                    } else {
                        assert(after[after.len() - 1] == n);
                    }
                }
            }
        }
        i = i + 1;
    }
    proof {
        assert(names_view(selected@).to_set() =~= env_names(*task, env_vars@));
    }
    let sorted = sorted_unique(&selected);
    let ghost c = names_view(sorted@);
    let d = decimal_string(sorted.len() as u64);
    r.append(d.as_str());
    r.append("#");
    let ghost start = r@;
    let mut j: usize = 0;
    assert(c.subrange(0, 0) =~= Seq::<Seq<char>>::empty());
    assert(r@ =~= start + env_body(env_vars@, c.subrange(0, 0)));
    while j < sorted.len()
        invariant
            j <= sorted@.len(),
            c == names_view(sorted@),
            r@ == start + env_body(env_vars@, c.subrange(0, j as int)),
        decreases sorted.len() - j,
    {
        append_part(r, sorted[j].as_str());
        let value = env_value(env_vars, &sorted[j]);
        append_part(r, value.as_str());
        proof {
            assert(c.subrange(0, j + 1).drop_last() =~= c.subrange(0, j as int));
            assert(r@ =~= start + env_body(env_vars@, c.subrange(0, j + 1)));
        }
        j = j + 1;
    }
    assert(c.subrange(0, sorted@.len() as int) =~= c);
    assert(final(r)@ =~= old(r)@ + group(c.len(), env_body(env_vars@, c)));
}

/// The text that the cache key digests.
pub fn preimage_text(
    task_name: &String,
    task: &TaskConfig,
    env_vars: &Vec<(String, String)>,
    files: &Vec<InputFile>,
    working_dir: &String,
) -> (r: String)
    ensures
        r@ == preimage(task_name@, *task, env_vars@, files@, working_dir@),
{
    proof {
        reveal_strlit("+");
        reveal_strlit("-");
    }
    let mut r = String::new();
    append_part(&mut r, task_name.as_str());
    append_opt(&mut r, &task.command);
    append_opt(&mut r, &task.script);
    append_opt(&mut r, &task.shell);
    append_opt(&mut r, &task.working_dir);
    append_list(&mut r, &task.inputs);
    append_list(&mut r, &task.outputs);
    match task.timeout {
        Some(t) => {
            r.append("+");
            let d = decimal_string(t as u64);
            append_part(&mut r, d.as_str());
        },
        None => {
            r.append("-");
        },
    }
    append_files(&mut r, files);
    append_env(&mut r, task, env_vars);
    append_part(&mut r, working_dir.as_str());
    assert(r@ =~= preimage(task_name@, *task, env_vars@, files@, working_dir@));
    r
}

/// The cache key of a task: its explicit key, or the SHA-256 digest of its
/// preimage in hex.
pub fn fingerprint(
    task_name: &String,
    task: &TaskConfig,
    env_vars: &Vec<(String, String)>,
    files: &Vec<InputFile>,
    working_dir: &String,
) -> (r: String)
    ensures
        r@ == fingerprint_of(task_name@, *task, env_vars@, files@, working_dir@),
        task.cache_key is None ==> is_hex_key(r@),
{
    match &task.cache_key {
        Some(k) => k.clone(),
        None => {
            let text = preimage_text(task_name, task, env_vars, files, working_dir);
            sha256_hex(text.as_str().as_bytes())
        },
    }
}

/// Adding a variable that the task does not refer to leaves its cache key
/// unchanged.
pub proof fn unreferenced_variable_keeps_key(
    task_name: Seq<char>,
    t: TaskConfig,
    env: Seq<(String, String)>,
    extra: (String, String),
    files: Seq<InputFile>,
    working_dir: Seq<char>,
)
    requires
        !referenced_by(t, extra.0@),
    ensures
        fingerprint_of(task_name, t, env.push(extra), files, working_dir) == fingerprint_of(
            task_name,
            t,
            env,
            files,
            working_dir,
        ),
{
    let env2 = env.push(extra);
    assert forall|n: Seq<char>| env_names(t, env2).contains(n) <==> env_names(t, env).contains(n) by {
        if env_names(t, env2).contains(n) {
            let k = choose|k: int| 0 <= k < env2.len() && #[trigger] env2[k].0@ == n && referenced_by(t, n);
            if k < env.len() {
                assert(env[k].0@ == n);
            }
        }
        if env_names(t, env).contains(n) {
            let k = choose|k: int| 0 <= k < env.len() && #[trigger] env[k].0@ == n && referenced_by(t, n);
            assert(env2[k].0@ == n);
        }
    }
    assert(env_names(t, env2) =~= env_names(t, env));
    let names = canonical(env_names(t, env));
    let listed = Seq::new(env.len(), |k: int| env[k].0@);
    let picked = listed.filter(|n: Seq<char>| referenced_by(t, n));
    assert(picked == listed.filter(|n: Seq<char>| referenced_by(t, n)));
    let pred = |n: Seq<char>| referenced_by(t, n);
    assert forall|n: Seq<char>| picked.to_set().contains(n) <==> env_names(t, env).contains(n) by {
        if picked.to_set().contains(n) {
            assert(picked.contains(n));
            let i = choose|i: int| 0 <= i < picked.len() && picked[i] == n;
            listed.lemma_filter_pred(pred, i);
            listed.lemma_filter_contains_rev(pred, n);
            let k = choose|k: int| 0 <= k < listed.len() && listed[k] == n;
            assert(env[k].0@ == n);
        }
        if env_names(t, env).contains(n) {
            let k = choose|k: int| 0 <= k < env.len() && #[trigger] env[k].0@ == n && referenced_by(t, n);
            assert(listed[k] == n);
            listed.lemma_filter_contains(pred, k);
            assert(picked.contains(n));
        }
    }
    assert(picked.to_set() =~= env_names(t, env));
    crate::order::lemma_sorted_exists(picked);
    assert forall|k: int| 0 <= k < names.len() implies referenced_by(t, #[trigger] names[k]) by {
        assert(names.to_set().contains(names[k]));
    }
    lemma_env_body_same(t, env, extra, names);
}

proof fn lemma_env_body_same(t: TaskConfig, env: Seq<(String, String)>, extra: (String, String), names: Seq<Seq<char>>)
    requires
        !referenced_by(t, extra.0@),
        forall|k: int| 0 <= k < names.len() ==> referenced_by(t, #[trigger] names[k]),
    ensures
        env_body(env.push(extra), names) == env_body(env, names),
    decreases names.len(),
{
    if names.len() > 0 {
        lemma_env_body_same(t, env, extra, names.drop_last());
        assert(names.last() != extra.0@);
        assert(env.push(extra).drop_last() =~= env);
    }
}

/// Runs with the same definition, input records, variables and working
/// directory get the same cache key.
pub proof fn same_inputs_same_key(
    task_name: Seq<char>,
    t1: TaskConfig,
    t2: TaskConfig,
    env: Seq<(String, String)>,
    files: Seq<InputFile>,
    working_dir: Seq<char>,
)
    requires
        t1.same_as(t2),
    ensures
        fingerprint_of(task_name, t1, env, files, working_dir) == fingerprint_of(task_name, t2, env, files, working_dir),
{
    assert(env_names(t1, env) =~= env_names(t2, env));
    assert(list_part(t1.inputs) == list_part(t2.inputs));
    assert(list_part(t1.outputs) == list_part(t2.outputs));
}

/// The text of the input set: each path's part with its record's parts, by path.
pub open spec fn input_set_text(files: Seq<InputFile>) -> Seq<char> {
    let paths = canonical(paths_of(files));
    group(paths.len(), files_body(files, paths))
}

/// The digest of a file's contents, as lowercase hex.
pub fn content_digest(bytes: &[u8]) -> (r: String)
    ensures
        r@ == sha256_hex_of(bytes@),
        is_hex_key(r@),
{
    sha256_hex(bytes)
}

/// The digest of the input set, which a cache entry records: it changes
/// with any input record.
pub fn input_digest(files: &Vec<InputFile>) -> (r: String)
    ensures
        r@ == sha256_hex_of(encode_utf8(input_set_text(files@))),
        is_hex_key(r@),
{
    let mut text = String::new();
    append_files(&mut text, files);
    assert(text@ =~= input_set_text(files@));
    sha256_hex(text.as_str().as_bytes())
}

/// Each record has a path of its own.
pub open spec fn unique_paths(files: Seq<InputFile>) -> bool {
    forall|a: int, b: int| 0 <= a < files.len() && 0 <= b < files.len() && a != b ==> #[trigger] files[a].path@
        != #[trigger] files[b].path@
}

proof fn lemma_record_other(files: Seq<InputFile>, i: int, r: InputFile, p: Seq<char>)
    requires
        0 <= i < files.len(),
        r.path@ == files[i].path@,
        p != files[i].path@,
    ensures
        record_part(files.update(i, r), p) == record_part(files, p),
    decreases files.len(),
{
    let f2 = files.update(i, r);
    if i < files.len() - 1 {
        lemma_record_other(files.drop_last(), i, r, p);
        assert(f2.drop_last() =~= files.drop_last().update(i, r));
    } else {
        assert(f2.drop_last() =~= files.drop_last());
    }
}

proof fn lemma_record_of(files: Seq<InputFile>, i: int)
    requires
        0 <= i < files.len(),
        unique_paths(files),
    ensures
        record_part(files, files[i].path@) == part(decimal(files[i].size as nat)) + part(files[i].digest@),
    decreases files.len(),
{
    if i < files.len() - 1 {
        let q = files.drop_last();
        assert(files.last().path@ != files[i].path@);
        assert(q[i] == files[i]);
        lemma_record_of(q, i);
    }
}

proof fn lemma_body_concat(files: Seq<InputFile>, p: Seq<Seq<char>>, q: Seq<Seq<char>>)
    ensures
        files_body(files, p + q) == files_body(files, p) + files_body(files, q),
    decreases q.len(),
{
    if q.len() == 0 {
        assert(p + q =~= p);
    } else {
        lemma_body_concat(files, p, q.drop_last());
        assert((p + q).drop_last() =~= p + q.drop_last());
    }
}

proof fn lemma_body_same(f1: Seq<InputFile>, f2: Seq<InputFile>, p: Seq<Seq<char>>)
    requires
        forall|k: int| 0 <= k < p.len() ==> record_part(f1, #[trigger] p[k]) == record_part(f2, p[k]),
    ensures
        files_body(f1, p) == files_body(f2, p),
    decreases p.len(),
{
    if p.len() > 0 {
        let q = p.drop_last();
        assert forall|k: int| 0 <= k < q.len() implies record_part(f1, #[trigger] q[k]) == record_part(f2, q[k]) by {
            assert(q[k] == p[k]);
        }
        lemma_body_same(f1, f2, q);
        assert(record_part(f1, p[p.len() - 1]) == record_part(f2, p[p.len() - 1]));
    }
}

proof fn lemma_cancel(x: Seq<char>, b1: Seq<char>, b2: Seq<char>, y: Seq<char>)
    requires
        x + b1 + y == x + b2 + y,
    ensures
        b1 == b2,
{
    let s = x + b1 + y;
    assert(s.len() == (x + b2 + y).len());
    assert(b1.len() == b2.len());
    let lx = x.len() as int;
    assert(s.subrange(lx, lx + b1.len()) =~= b1);
    assert((x + b2 + y).subrange(lx, lx + b2.len()) =~= b2);
}

proof fn lemma_records_differ(s1: u64, d1: Seq<char>, s2: u64, d2: Seq<char>)
    requires
        s1 != s2 || d1 != d2,
    ensures
        part(decimal(s1 as nat)) + part(d1) != part(decimal(s2 as nat)) + part(d2),
{
    let r1 = part(decimal(s1 as nat)) + part(d1);
    let r2 = part(decimal(s2 as nat)) + part(d2);
    if r1 == r2 {
        let e1 = decimal(s1 as nat);
        let e2 = decimal(s2 as nat);
        assert(r1.subrange(0, part(e1).len() as int) =~= part(e1));
        assert(r2.subrange(0, part(e2).len() as int) =~= part(e2));
        crate::cache::lemma_part_unique(r1, 0, e1, e2);
        crate::cache::lemma_decimal(s1 as nat);
        crate::cache::lemma_decimal(s2 as nat);
        assert(s1 == s2);
        let o = part(e1).len() as int;
        assert(r1.subrange(o, o + part(d1).len()) =~= part(d1));
        assert(r2.subrange(o, o + part(d2).len()) =~= part(d2));
        crate::cache::lemma_part_unique(r1, o, d1, d2);
    }
}

/// Changing the size or the content digest of a declared input file changes
/// the text that its task's cache key digests.
pub proof fn changed_input_changes_preimage(
    task_name: Seq<char>,
    t: TaskConfig,
    env: Seq<(String, String)>,
    files: Seq<InputFile>,
    i: int,
    size: u64,
    digest: String,
    working_dir: Seq<char>,
)
    requires
        0 <= i < files.len(),
        unique_paths(files),
        size != files[i].size || digest@ != files[i].digest@,
    ensures
        preimage(task_name, t, env, files.update(i, InputFile { path: files[i].path, size, digest }), working_dir)
            != preimage(task_name, t, env, files, working_dir),
{
    let r = InputFile { path: files[i].path, size, digest };
    let f2 = files.update(i, r);
    let p0 = files[i].path@;
    assert(unique_paths(f2)) by {
        assert forall|a: int, b: int| 0 <= a < f2.len() && 0 <= b < f2.len() && a != b implies #[trigger] f2[a].path@
            != #[trigger] f2[b].path@ by {
            assert(f2[a].path@ == files[a].path@ && f2[b].path@ == files[b].path@);
        }
    }
    assert(paths_of(f2) =~= paths_of(files)) by {
        assert forall|q: Seq<char>| paths_of(f2).contains(q) <==> paths_of(files).contains(q) by {
            if paths_of(f2).contains(q) {
                let k = choose|k: int| 0 <= k < f2.len() && #[trigger] f2[k].path@ == q;
                assert(files[k].path@ == q);
            }
            if paths_of(files).contains(q) {
                let k = choose|k: int| 0 <= k < files.len() && #[trigger] files[k].path@ == q;
                assert(f2[k].path@ == q);
            }
        }
    }
    let listed = Seq::new(files.len(), |k: int| files[k].path@);
    assert(listed.to_set() =~= paths_of(files)) by {
        assert forall|q: Seq<char>| listed.to_set().contains(q) <==> paths_of(files).contains(q) by {
            if listed.to_set().contains(q) {
                let k = choose|k: int| 0 <= k < listed.len() && listed[k] == q;
                assert(files[k].path@ == q);
            }
            if paths_of(files).contains(q) {
                let k = choose|k: int| 0 <= k < files.len() && #[trigger] files[k].path@ == q;
                assert(listed[k] == q);
            }
        }
    }
    crate::order::lemma_sorted_exists(listed);
    let ps = canonical(paths_of(files));
    assert(paths_of(files).contains(p0)) by {
        assert(files[i].path@ == p0);
    }
    assert(ps.to_set().contains(p0));
    let m = choose|m: int| 0 <= m < ps.len() && ps[m] == p0;
    assert forall|k: int| 0 <= k < ps.len() && k != m implies #[trigger] ps[k] != p0 by {
        if k < m {
            assert(crate::order::text_lt(ps[k], ps[m]));
        } else {
            assert(crate::order::text_lt(ps[m], ps[k]));
        }
        crate::order::lemma_lt_irreflexive(p0);
    }
    let pre = ps.subrange(0, m);
    let post = ps.subrange(m + 1, ps.len() as int);
    assert(ps =~= pre + seq![p0] + post);
    assert forall|k: int| 0 <= k < pre.len() implies record_part(f2, #[trigger] pre[k]) == record_part(files, pre[k]) by {
        assert(pre[k] == ps[k]);
        lemma_record_other(files, i, r, pre[k]);
    }
    assert forall|k: int| 0 <= k < post.len() implies record_part(f2, #[trigger] post[k]) == record_part(files, post[k]) by {
        assert(post[k] == ps[m + 1 + k]);
        lemma_record_other(files, i, r, post[k]);
    }
    lemma_body_same(f2, files, pre);
    lemma_body_same(f2, files, post);
    lemma_body_concat(files, pre + seq![p0], post);
    lemma_body_concat(f2, pre + seq![p0], post);
    assert((pre + seq![p0]).drop_last() =~= pre);
    lemma_record_of(files, i);
    lemma_record_of(f2, i);
    let r1 = part(decimal(files[i].size as nat)) + part(files[i].digest@);
    let r2 = part(decimal(size as nat)) + part(digest@);
    lemma_records_differ(files[i].size, files[i].digest@, size, digest@);
    let y = files_body(files, pre) + part(p0);
    let z = files_body(files, post);
    let b1 = files_body(files, ps);
    let b2 = files_body(f2, ps);
    assert(b1 == y + r1 + z);
    assert(b2 == y + r2 + z);
    if b1 == b2 {
        lemma_cancel(y, r1, r2, z);
    }
    let names = canonical(env_names(t, env));
    let x = part(task_name) + opt_part(t.command) + opt_part(t.script) + opt_part(t.shell) + opt_part(t.working_dir)
        + list_part(t.inputs) + list_part(t.outputs) + timeout_part(t.timeout) + decimal(ps.len()) + seq!['#'];
    let w = group(names.len(), env_body(env, names)) + part(working_dir);
    assert(preimage(task_name, t, env, files, working_dir) =~= x + b1 + w);
    assert(preimage(task_name, t, env, f2, working_dir) =~= x + b2 + w);
    if preimage(task_name, t, env, f2, working_dir) == preimage(task_name, t, env, files, working_dir) {
        lemma_cancel(x, b2, b1, w);
    }
}

} // verus!
