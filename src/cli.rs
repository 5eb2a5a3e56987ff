use vstd::prelude::*;
use vstd::string::*;

verus! {

/// What to print for each matching file.
#[derive(Clone, Copy, Debug, PartialEq, Eq, Structural)]
pub enum Mode {
    /// The file name and the count of each pattern.
    Default,
    /// The file name alone.
    FilenameOnly,
}

/// A parsed command line: what to print, the patterns, and the root path.
pub struct Invocation {
    pub mode: Mode,
    pub patterns: Vec<String>,
    pub path: String,
}

pub open spec fn views(v: Seq<String>) -> Seq<Seq<char>> {
    v.map_values(|s: String| s@)
}

/// The pieces of `s` between single spaces, as `str::split(' ')` gives them:
/// consecutive spaces give empty pieces, and there is always one piece more
/// than there are spaces.
pub open spec fn split_spaces(s: Seq<char>) -> Seq<Seq<char>>
    decreases s.len(),
{
    if s.len() == 0 {
        seq![Seq::<char>::empty()]
    } else {
        let init = split_spaces(s.drop_last());
        if s.last() == ' ' {
            init.push(Seq::<char>::empty())
        } else {
            init.update(init.len() - 1, init.last().push(s.last()))
        }
    }
}

pub open spec fn list_flag() -> Seq<char> {
    seq!['-', 'l']
}

pub open spec fn default_path() -> Seq<char> {
    seq!['.']
}

/// The meaning of the arguments (program name excluded): an optional `-l`
/// flag, the space-separated patterns, and an optional path.
pub open spec fn parsed(args: Seq<Seq<char>>) -> Option<(Mode, Seq<Seq<char>>, Seq<char>)> {
    if args.len() == 2 && args[0] == list_flag() {
        Some((Mode::FilenameOnly, split_spaces(args[1]), default_path()))
    } else if args.len() == 3 && args[0] == list_flag() {
        Some((Mode::FilenameOnly, split_spaces(args[1]), args[2]))
    } else if args.len() == 1 {
        Some((Mode::Default, split_spaces(args[0]), default_path()))
    } else if args.len() == 2 {
        Some((Mode::Default, split_spaces(args[0]), args[1]))
    } else {
        None
    }
}

proof fn lemma_split_nonempty(s: Seq<char>)
    ensures
        split_spaces(s).len() >= 1,
    decreases s.len(),
{
    if s.len() > 0 {
        lemma_split_nonempty(s.drop_last());
    }
}

impl Default for Invocation {
    fn default() -> (r: Self)
        ensures
            r.mode == Mode::Default,
            r.patterns@.len() == 0,
            r.path@ == default_path(),
    {
        proof {
            reveal_strlit(".");
        }
        Invocation { mode: Mode::Default, patterns: Vec::new(), path: ".".to_owned() }
    }
}

impl Invocation {
    pub fn with_mode(self, mode: Mode) -> (r: Self)
        ensures
            r.mode == mode,
            r.patterns == self.patterns,
            r.path == self.path,
    {
        let mut s = self;
        s.mode = mode;
        s
    }

    pub fn with_patterns(self, patterns: Vec<String>) -> (r: Self)
        ensures
            r.mode == self.mode,
            r.patterns == patterns,
            r.path == self.path,
    {
        let mut s = self;
        s.patterns = patterns;
        s
    }

    pub fn with_path(self, path: String) -> (r: Self)
        ensures
            r.mode == self.mode,
            r.patterns == self.patterns,
            r.path == path,
    {
        let mut s = self;
        s.path = path;
        s
    }
}

/// Splits the pattern argument at every single space.
pub fn split_patterns(patterns: &str) -> (r: Vec<String>)
    ensures
        views(r@) == split_spaces(patterns@),
{
    let n = patterns.unicode_len();
    let mut out: Vec<String> = Vec::new();
    let mut start: usize = 0;
    let mut i: usize = 0;
    assert(patterns@.subrange(0, 0) =~= Seq::<char>::empty());
    assert(views(out@).push(patterns@.subrange(0, 0)) =~= seq![Seq::<char>::empty()]);
    while i < n
        invariant
            n == patterns@.len(),
            start <= i <= n,
            split_spaces(patterns@.subrange(0, i as int)) == views(out@).push(patterns@.subrange(start as int, i as int)),
        decreases n - i,
    {
        let c = patterns.get_char(i);
        let ghost prev = patterns@.subrange(0, i as int);
        let ghost next = patterns@.subrange(0, i + 1);
        assert(next.drop_last() =~= prev);
        assert(next.last() == c);
        proof {
            lemma_split_nonempty(prev);
        }
        if c == ' ' {
            let piece = patterns.substring_char(start, i).to_owned();
            let ghost before = out@;
            out.push(piece);
            assert(views(out@) =~= views(before).push(patterns@.subrange(start as int, i as int)));
            start = i + 1;
            assert(patterns@.subrange(start as int, i + 1) =~= Seq::<char>::empty());
        } else {
            assert(patterns@.subrange(start as int, i + 1) =~= patterns@.subrange(start as int, i as int).push(c));
        }
        i = i + 1;
    }
    assert(patterns@.subrange(0, n as int) =~= patterns@);
    let last = patterns.substring_char(start, n).to_owned();
    let ghost before = out@;
    out.push(last);
    assert(views(out@) =~= views(before).push(patterns@.subrange(start as int, n as int)));
    out
}

/// True exactly when `s` is the `-l` flag.
fn is_list_flag(s: &String) -> (r: bool)
    ensures
        r == (s@ == list_flag()),
{
    let t = s.as_str();
    if t.unicode_len() != 2 {
        return false;
    }
    let r = t.get_char(0) == '-' && t.get_char(1) == 'l';
    if r {
        assert(t@ =~= list_flag());
    }
    r
}

/// Reads the command-line arguments that follow the program name:
/// `[-l] <space separated patterns> [path]`. Returns `None` on any other
/// shape.
pub fn parse_args(args: &Vec<String>) -> (r: Option<Invocation>)
    ensures
        r is Some <==> parsed(views(args@)) is Some,
        r matches Some(inv) ==> ({
            let (mode, pats, path) = parsed(views(args@))->Some_0;
            inv.mode == mode && views(inv.patterns@) == pats && inv.path@ == path
        }),
{
    let ghost a = views(args@);
    let n = args.len();
    if n == 0 || n > 3 {
        return None;
    }
    assert(a[0] == args@[0]@);
    let flag = is_list_flag(&args[0]);
    if flag && n == 2 {
        assert(a[1] == args@[1]@);
        Some(Invocation::default().with_mode(Mode::FilenameOnly).with_patterns(split_patterns(args[1].as_str())))
    } else if flag && n == 3 {
        assert(a[1] == args@[1]@);
        assert(a[2] == args@[2]@);
        Some(
            Invocation::default().with_mode(Mode::FilenameOnly).with_patterns(
                split_patterns(args[1].as_str()),
            ).with_path(args[2].clone()),
        )
    } else if n == 1 {
        Some(Invocation::default().with_patterns(split_patterns(args[0].as_str())))
    } else if n == 2 {
        assert(a[1] == args@[1]@);
        Some(Invocation::default().with_patterns(split_patterns(args[0].as_str())).with_path(args[1].clone()))
    } else {
        None
    }
}

} // verus!
