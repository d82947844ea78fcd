//! Settings: the environment and, optionally, a file of `KEY=VALUE` lines. A variable of the
//! environment, where it is set, comes before the file. Relative paths in the file start from
//! its directory.

use crate::paths::{join, joined, PathRules};
use crate::text::{
    chars, decimal, first_at, is_white, lemma_first_at_is, lines, lines_of, push_decimal, same_text,
    split_once, starts, starts_with, trim, trimmed, views,
};
use crate::text_laws::lemma_trimmed_same;
use vstd::prelude::*;
use vstd::string::*;

verus! {

/// What a line of the file says.
pub enum LineModel {
    /// Nothing: an empty line or a comment.
    Skip,
    Entry(Seq<char>, Seq<char>),
    /// A line without an equals sign.
    Bad,
}

/// Without the byte order marks at the beginning.
pub open spec fn unmarked(s: Seq<char>) -> Seq<char>
    decreases s.len(),
{
    if s.len() > 0 && s[0] == '\u{feff}' {
        unmarked(s.drop_first())
    } else {
        s
    }
}

/// The text in quotes `q`, if it stands in them.
pub open spec fn quoted(s: Seq<char>, q: char) -> bool {
    s.len() >= 2 && s[0] == q && s.last() == q
}

/// A value without the double or the single quotes round it.
pub open spec fn unquoted(s: Seq<char>) -> Seq<char> {
    if quoted(s, '"') || quoted(s, '\'') {
        s.subrange(1, s.len() - 1)
    } else {
        s
    }
}

/// What a line says: `KEY=VALUE`, with or without `export` before it.
pub open spec fn line_says(raw: Seq<char>) -> LineModel {
    let line = unmarked(trimmed(raw));
    if line.len() == 0 || line[0] == '#' {
        LineModel::Skip
    } else {
        let bare = if starts(line, "export "@) {
            line.skip("export "@.len() as int)
        } else {
            line
        };
        let n = first_at(bare, '=');
        if n < bare.len() {
            LineModel::Entry(trimmed(bare.take(n)), unquoted(trimmed(bare.skip(n + 1))))
        } else {
            LineModel::Bad
        }
    }
}

/// What the lines of a file say: the value of each key, where the last line with a key counts,
/// or the number of the first line that is neither empty, nor a comment, nor `KEY=VALUE`.
pub open spec fn lines_say(ls: Seq<Seq<char>>) -> Result<Map<Seq<char>, Seq<char>>, nat>
    decreases ls.len(),
{
    if ls.len() == 0 {
        Ok(Map::empty())
    } else {
        match lines_say(ls.drop_last()) {
            Ok(m) => match line_says(ls.last()) {
                LineModel::Skip => Ok(m),
                LineModel::Entry(key, value) => Ok(m.insert(key, value)),
                LineModel::Bad => Err(ls.len()),
            },
            Err(n) => Err(n),
        }
    }
}

/// A bad line stays bad, whatever follows it.
proof fn lemma_bad_line(ls: Seq<Seq<char>>, n: int)
    requires
        0 < n <= ls.len(),
        lines_say(ls.take(n)) is Err,
    ensures
        lines_say(ls) == lines_say(ls.take(n)),
    decreases ls.len(),
{
    if n < ls.len() {
        assert(ls.drop_last().take(n) =~= ls.take(n));
        lemma_bad_line(ls.drop_last(), n);
    } else {
        assert(ls.take(n) =~= ls);
    }
}

/// One line of the file: nothing, or a key and its value.
fn read_line(raw: &str) -> (entry: Result<Option<(String, String)>, ()>)
    ensures
        match entry {
            Ok(None) => line_says(raw@) is Skip,
            Ok(Some((key, value))) => line_says(raw@) == LineModel::Entry(key@, value@),
            Err(_) => line_says(raw@) is Bad,
        },
{
    let line = without_marks(trim(raw));
    let text: Vec<char> = chars(line);
    if text.len() == 0 || text[0] == '#' {
        return Ok(None);
    }
    let bare = if starts_with(line, "export ") {
        let n: usize = "export ".unicode_len();
        assert(line@.subrange(n as int, line@.len() as int) =~= line@.skip(n as int));
        line.substring_char(n, text.len())
    } else {
        line
    };
    match split_once(bare, '=') {
        Some((key, value)) => Ok(Some((trim(key).to_owned(), without_quotes(trim(value)).to_owned()))),
        None => Err(()),
    }
}

fn without_marks<'a>(s: &'a str) -> (out: &'a str)
    ensures
        out@ == unmarked(s@),
{
    let text: Vec<char> = chars(s);
    let mut a: usize = 0;
    assert(s@.skip(0) =~= s@);
    while a < text.len() && text[a] == '\u{feff}'
        invariant
            text@ == s@,
            a <= s@.len(),
            unmarked(s@) == unmarked(s@.skip(a as int)),
        decreases s@.len() - a,
    {
        assert(s@.skip(a as int).drop_first() =~= s@.skip(a + 1));
        a += 1;
    }
    assert(s@.subrange(a as int, s@.len() as int) =~= s@.skip(a as int));
    s.substring_char(a, text.len())
}

fn without_quotes<'a>(s: &'a str) -> (out: &'a str)
    ensures
        out@ == unquoted(s@),
{
    let text: Vec<char> = chars(s);
    let n: usize = text.len();
    if n >= 2 && ((text[0] == '"' && text[n - 1] == '"') || (text[0] == '\'' && text[n - 1] == '\'')) {
        s.substring_char(1, n - 1)
    } else {
        s
    }
}

/// The entries of a file by key; the last one with a key counts.
pub open spec fn by_key(entries: Seq<(String, String)>) -> Map<Seq<char>, Seq<char>>
    decreases entries.len(),
{
    if entries.len() == 0 {
        Map::empty()
    } else {
        by_key(entries.drop_last()).insert(entries.last().0@, entries.last().1@)
    }
}

/// Reads `KEY=VALUE` lines; the number of the first bad line where there is one.
pub fn parse(text: &str) -> (entries: Result<Vec<(String, String)>, usize>)
    ensures
        match entries {
            Ok(es) => lines_say(lines_of(text@)) == Ok::<Map<Seq<char>, Seq<char>>, nat>(by_key(es@)),
            Err(n) => lines_say(lines_of(text@)) == Err::<Map<Seq<char>, Seq<char>>, nat>(n as nat),
        },
{
    let all: Vec<&str> = lines(text);
    let ghost ls = lines_of(text@);
    let mut entries: Vec<(String, String)> = Vec::new();
    let mut i: usize = 0;
    assert(ls.take(0) =~= Seq::<Seq<char>>::empty());
    while i < all.len()
        invariant
            i <= all@.len(),
            views(all@) == ls,
            ls == lines_of(text@),
            lines_say(ls.take(i as int)) == Ok::<Map<Seq<char>, Seq<char>>, nat>(by_key(entries@)),
        decreases all@.len() - i,
    {
        let ghost before = entries@;
        proof {
            assert(ls.take(i + 1).drop_last() =~= ls.take(i as int));
            assert(ls[i as int] == all@[i as int]@);
        }
        match read_line(all[i]) {
            Ok(Some(entry)) => {
                entries.push(entry);
                assert(entries@.drop_last() =~= before);
            },
            Ok(None) => {},
            Err(_) => {
                proof {
                    assert(lines_say(ls.take(i + 1)) == Err::<Map<Seq<char>, Seq<char>>, nat>((i + 1) as nat));
                    lemma_bad_line(ls, i + 1);
                }
                return Err(i + 1);
            },
        }
        i += 1;
    }
    assert(ls.take(i as int) =~= ls);
    Ok(entries)
}

/// What is wrong with a settings file: `строка N: ожидается KEY=VALUE`.
pub fn bad_line_text(line: usize) -> (text: String)
    ensures
        text@ == "строка "@ + decimal(line as nat) + ": ожидается KEY=VALUE"@,
{
    let mut text: String = "строка ".to_owned();
    push_decimal(&mut text, line as u64);
    text.append(": ожидается KEY=VALUE");
    text
}

/// The settings of a program.
pub struct Settings {
    file: Vec<(String, String)>,
    base_dir: String,
    rules: PathRules,
}

impl Settings {
    /// What the file says.
    pub closed spec fn file(&self) -> Map<Seq<char>, Seq<char>> {
        by_key(self.file@)
    }

    /// The directory of the file.
    pub closed spec fn base_dir(&self) -> Seq<char> {
        self.base_dir@
    }

    /// The rules by which paths are joined to that directory.
    pub closed spec fn rules(&self) -> PathRules {
        self.rules
    }

    /// Settings without a file.
    pub fn without_file(rules: PathRules) -> (settings: Self)
        ensures
            settings.file() == Map::<Seq<char>, Seq<char>>::empty(),
            settings.base_dir() == Seq::<char>::empty(),
            settings.rules() == rules,
    {
        Self { file: Vec::new(), base_dir: String::new(), rules }
    }

    /// Settings with a file of the given text in the given directory; the number of the first
    /// bad line where there is one.
    pub fn from_text(text: &str, base_dir: &str, rules: PathRules) -> (settings: Result<Self, usize>)
        ensures
            match settings {
                Ok(s) => lines_say(lines_of(text@)) == Ok::<Map<Seq<char>, Seq<char>>, nat>(s.file())
                    && s.base_dir() == base_dir@ && s.rules() == rules,
                Err(n) => lines_say(lines_of(text@)) == Err::<Map<Seq<char>, Seq<char>>, nat>(n as nat),
            },
    {
        match parse(text) {
            Ok(file) => Ok(Self { file, base_dir: base_dir.to_owned(), rules }),
            Err(n) => Err(n),
        }
    }

    /// The value of a setting: that of the environment, where it is set, else that of the file.
    pub fn get(&self, name: &str, env: Option<String>) -> (value: Option<String>)
        ensures
            env matches Some(e) ==> value matches Some(v) && v@ == e@,
            env is None ==> (value is Some <==> self.file().contains_key(name@)),
            env is None ==> (value matches Some(v) ==> v@ == self.file()[name@]),
    {
        if env.is_some() {
            return env;
        }
        let mut i: usize = self.file.len();
        assert(self.file@.take(i as int) =~= self.file@);
        while i > 0
            invariant
                env is None,
                i <= self.file@.len(),
                by_key(self.file@.take(i as int)).contains_key(name@) <==> self.file().contains_key(name@),
                self.file().contains_key(name@) ==> by_key(self.file@.take(i as int))[name@] == self.file()[name@],
            decreases i,
        {
            let ghost before = self.file@.take(i as int);
            assert(before.drop_last() =~= self.file@.take(i - 1));
            assert(before.last() == self.file@[i - 1]);
            i -= 1;
            if same_text(self.file[i].0.as_str(), name) {
                return Some(self.file[i].1.clone());
            }
        }
        None
    }

    /// A path of the settings: a relative one starts from the directory of the file.
    pub fn resolve(&self, value: &str) -> (path: String)
        ensures
            path@ == joined(self.base_dir(), value@, self.rules()),
    {
        join(self.base_dir.as_str(), value, self.rules)
    }
}

/// The command line names a settings file: `--config file` and nothing else, or is empty.
pub fn parse_args(args: &Vec<String>) -> (file: Result<Option<String>, ()>)
    ensures
        match file {
            Ok(None) => args@.len() == 0,
            Ok(Some(path)) => args@.len() == 2 && args@[0]@ == "--config"@ && path@ == args@[1]@,
            Err(_) => args@.len() != 0 && !(args@.len() == 2 && args@[0]@ == "--config"@),
        },
{
    if args.len() == 0 {
        Ok(None)
    } else if args.len() == 2 && same_text(args[0].as_str(), "--config") {
        Ok(Some(args[1].clone()))
    } else {
        Err(())
    }
}

/// The command line names a settings file with its first two arguments, or is empty.
pub fn config_argument(args: &Vec<String>) -> (file: Result<Option<String>, ()>)
    ensures
        match file {
            Ok(None) => args@.len() == 0,
            Ok(Some(path)) => args@.len() >= 2 && args@[0]@ == "--config"@ && path@ == args@[1]@,
            Err(_) => args@.len() != 0 && !(args@.len() >= 2 && args@[0]@ == "--config"@),
        },
{
    if args.len() == 0 {
        Ok(None)
    } else if args.len() >= 2 && same_text(args[0].as_str(), "--config") {
        Ok(Some(args[1].clone()))
    } else {
        Err(())
    }
}

/// A name that a variable can have: not empty, without white space and equals signs, and no
/// comment.
pub open spec fn is_name(key: Seq<char>) -> bool {
    &&& key.len() > 0
    &&& key[0] != '#' && key[0] != '\u{feff}'
    &&& forall|i: int| 0 <= i < key.len() ==> !is_white(#[trigger] key[i]) && key[i] != '='
}

/// A value that stands by itself: neither its first nor its last character is white space.
pub open spec fn is_bare(value: Seq<char>) -> bool {
    value.len() > 0 ==> !is_white(value[0]) && !is_white(value.last())
}

proof fn lemma_assignment(key: Seq<char>, value: Seq<char>)
    requires
        is_name(key),
        is_bare(value),
    ensures
        ({
            let line = key + seq!['='] + value;
            &&& trimmed(line) == line
            &&& unmarked(line) == line
            &&& first_at(line, '=') == key.len()
            &&& trimmed(line.take(key.len() as int)) == key
            &&& trimmed(line.skip(key.len() as int + 1)) == value
        }),
{
    let line = key + seq!['='] + value;
    assert(line[0] == key[0]);
    assert(!is_white(key[0]));
    assert(line.last() == if value.len() > 0 {
        value.last()
    } else {
        '='
    });
    lemma_trimmed_same(line);
    assert forall|i: int| 0 <= i < key.len() implies line[i] != '=' by {
        assert(key[i] != '=');
    }
    lemma_first_at_is(line, '=', key.len() as int);
    assert(line.take(key.len() as int) =~= key);
    assert(line.skip(key.len() as int + 1) =~= value);
    assert(!is_white(key[key.len() - 1]));
    lemma_trimmed_same(key);
    lemma_trimmed_same(value);
}

/// A line `NAME=VALUE` sets a variable, with or without `export` before it. Quotes of either kind
/// around the value are taken off; without them it is taken as it stands, equals signs and all.
pub proof fn law_lines_set_variables(key: Seq<char>, value: Seq<char>, inner: Seq<char>)
    requires
        is_name(key),
        is_bare(value),
    ensures
        ({
            let line = key + seq!['='] + value;
            &&& value.len() < 2 || value[0] != value.last() || (value[0] != '"' && value[0] != '\'')
                ==> line_says(line) == LineModel::Entry(key, value)
            &&& value == seq!['"'] + inner + seq!['"'] ==> line_says(line) == LineModel::Entry(
                key,
                inner,
            )
            &&& value == seq!['\''] + inner + seq!['\''] ==> line_says(line) == LineModel::Entry(
                key,
                inner,
            )
            &&& line_says("export "@ + line) == line_says(line)
        }),
{
    let line = key + seq!['='] + value;
    reveal_strlit("export ");
    lemma_assignment(key, value);
    assert(!starts(line, "export "@)) by {
        if starts(line, "export "@) {
            assert(line.take(7)[6] == ' ');
            assert(line[6] == ' ');
            if key.len() > 6 {
                assert(!is_white(key[6]));
            } else {
                assert(line.take(7)[key.len() as int] == '=');
            }
        }
    }
    if value == seq!['"'] + inner + seq!['"'] || value == seq!['\''] + inner + seq!['\''] {
        assert(value.subrange(1, value.len() - 1) =~= inner);
    }
    let longer = "export "@ + line;
    assert(longer[0] == 'e' && longer.last() == line.last());
    lemma_trimmed_same(longer);
    assert(longer.take(7) =~= "export "@);
    assert(longer.skip(7) =~= line);
}

/// Blank lines and comments say nothing; any other line without an equals sign is wrong.
pub proof fn law_comments_say_nothing(rest: Seq<char>)
    ensures
        line_says(Seq::empty()) is Skip,
        !is_white('#') && (rest.len() == 0 || !is_white(rest.last())) ==> line_says(
            seq!['#'] + rest,
        ) is Skip,
        is_name(rest) && !starts(rest, "export "@) ==> line_says(rest) is Bad,
{
    lemma_trimmed_same(Seq::<char>::empty());
    let c = seq!['#'] + rest;
    if rest.len() == 0 || !is_white(rest.last()) {
        assert(c.last() == if rest.len() > 0 {
            rest.last()
        } else {
            '#'
        });
        lemma_trimmed_same(c);
    }
    if is_name(rest) {
        assert(!is_white(rest[0]) && !is_white(rest[rest.len() - 1]));
        lemma_trimmed_same(rest);
        lemma_first_at_is(rest, '=', rest.len() as int);
    }
}

/// The lines of a file are read one after the other: a later line with the same name counts, and
/// the first wrong line is told by its number.
pub proof fn law_later_lines_count(ls: Seq<Seq<char>>, line: Seq<char>)
    ensures
        match lines_say(ls) {
            Ok(m) => match line_says(line) {
                LineModel::Skip => lines_say(ls.push(line)) == lines_say(ls),
                LineModel::Entry(key, value) => lines_say(ls.push(line)) == Ok::<
                    Map<Seq<char>, Seq<char>>,
                    nat,
                >(m.insert(key, value)),
                LineModel::Bad => lines_say(ls.push(line)) == Err::<
                    Map<Seq<char>, Seq<char>>,
                    nat,
                >(ls.len() + 1),
            },
            Err(n) => lines_say(ls.push(line)) == Err::<Map<Seq<char>, Seq<char>>, nat>(n),
        },
{
    assert(ls.push(line).drop_last() =~= ls);
}

/// A variable of the environment comes before one of the file; without either there is none.
pub proof fn law_the_environment_comes_before_the_file(
    settings: &Settings,
    name: &str,
    env: Option<String>,
    value: Option<String>,
)
    requires
        call_ensures(Settings::get, (settings, name, env), value),
    ensures
        env matches Some(e) ==> value is Some && value->0@ == e@,
        env is None && settings.file().contains_key(name@) ==> value is Some && value->0@
            == settings.file()[name@],
        env is None && !settings.file().contains_key(name@) ==> value is None,
{
}

/// A settings file is named by `--config` and a path: by these two arguments alone, or by the first
/// two; no arguments name none, and anything else is wrong.
pub proof fn law_the_command_line_names_the_file(
    args: &Vec<String>,
    strict: Result<Option<String>, ()>,
    loose: Result<Option<String>, ()>,
)
    requires
        call_ensures(parse_args, (args,), strict),
        call_ensures(config_argument, (args,), loose),
    ensures
        args@.len() == 0 <==> strict matches Ok(None),
        args@.len() == 0 <==> loose matches Ok(None),
        ({
            let named = args@.len() >= 2 && args@[0]@ == "--config"@;
            &&& named ==> (loose matches Ok(Some(path)) && path@ == args@[1]@)
            &&& named && args@.len() == 2 ==> (strict matches Ok(Some(path)) && path@ == args@[1]@)
            &&& args@.len() > 0 && !named ==> loose is Err && strict is Err
            &&& args@.len() > 2 ==> strict is Err
        }),
{
}

/// A line more in a settings file: what it sets is set, whatever stood there before; a wrong line
/// is told by its number, counted from one, and what is wrong before stays so.
pub proof fn law_a_file_is_read_line_by_line(
    front: &str,
    whole: &str,
    line: Seq<char>,
    base_dir: &str,
    rules: PathRules,
    before: Result<Settings, usize>,
    after: Result<Settings, usize>,
)
    requires
        call_ensures(Settings::from_text, (front, base_dir, rules), before),
        call_ensures(Settings::from_text, (whole, base_dir, rules), after),
        lines_of(whole@) == lines_of(front@).push(line),
    ensures
        before matches Err(n) ==> after == Err::<Settings, usize>(n),
        before matches Ok(b) ==> match line_says(line) {
            LineModel::Skip => after matches Ok(a) && a.file() == b.file(),
            LineModel::Entry(key, value) => after matches Ok(a) && a.file() == b.file().insert(
                key,
                value,
            ),
            LineModel::Bad => after matches Err(n) && n == lines_of(front@).len() + 1,
        },
        after matches Ok(a) ==> a.base_dir() == base_dir@ && a.rules() == rules,
{
    law_later_lines_count(lines_of(front@), line);
    if let (Err(n), Err(m)) = (before, after) {
        assert(n as nat == m as nat);
    }
}

/// Without a file nothing is set; a path counts from the directory of the file.
pub proof fn law_paths_count_from_the_file(
    rules: PathRules,
    empty: Settings,
    settings: &Settings,
    base: &str,
    value: &str,
    path: String,
    expected: String,
)
    requires
        call_ensures(Settings::without_file, (rules,), empty),
        call_ensures(Settings::resolve, (settings, value), path),
        base@ == settings.base_dir(),
        call_ensures(join, (base, value, settings.rules()), expected),
    ensures
        empty.file() == Map::<Seq<char>, Seq<char>>::empty(),
        empty.base_dir().len() == 0,
        path@ == expected@,
{
}

} // verus!
