//! Filter rules: glob patterns that decide which paths take part in a sync,
//! and sizes with a unit.

use crate::paths::{
    component_spans, components, is_piece, law_components_are_in_order,
    law_components_are_the_pieces, span_text, span_views, PathUnit,
};
use crate::text::{
    chars_of, decimal, has_char, is_digit, is_space, law_decimal_round_trip,
    law_trim_takes_white_space, parse_number, parsed, segments, split, texts, trim, trimmed,
    unsigned,
};
use vstd::prelude::*;
use vstd::slice::{slice_subrange, slice_to_vec};

verus! {

// ---------------------------------------------------------------------------
// Globs
// ---------------------------------------------------------------------------

/// The ASCII letter in upper case; any other character as it is.
pub open spec fn upper(c: char) -> char {
    if 'a' <= c <= 'z' {
        (c as int - 32) as char
    } else {
        c
    }
}

/// No separator among the characters.
pub open spec fn no_slash(t: Seq<char>) -> bool {
    !t.contains('/')
}

/// What follows two stars: they take a separator behind them along.
pub open spec fn after_stars(p: Seq<char>) -> Seq<char> {
    if p.len() > 2 && p[2] == '/' {
        p.skip(3)
    } else {
        p.skip(2)
    }
}

/// The text matches the pattern: `*` stands for any characters other than a
/// separator, `**` for any characters, `?` for one character other than a
/// separator, and any other character for itself, ASCII letters in either
/// case.
pub open spec fn glob(p: Seq<char>, t: Seq<char>) -> bool
    decreases p.len(),
{
    if p.len() == 0 {
        t.len() == 0
    } else if p[0] == '*' && p.len() > 1 && p[1] == '*' {
        exists|n: int| 0 <= n <= t.len() && glob(after_stars(p), #[trigger] t.skip(n))
    } else if p[0] == '*' {
        exists|n: int|
            0 <= n <= t.len() && no_slash(t.take(n)) && glob(p.skip(1), #[trigger] t.skip(n))
    } else if t.len() == 0 {
        false
    } else if p[0] == '?' {
        t[0] != '/' && glob(p.skip(1), t.skip(1))
    } else {
        upper(p[0]) == upper(t[0]) && glob(p.skip(1), t.skip(1))
    }
}

/// Upper case of an ASCII letter.
fn to_upper(c: char) -> (u: char)
    ensures
        u == upper(c),
{
    if 'a' <= c && c <= 'z' {
        (c as u8 - 32) as char
    } else {
        c
    }
}

/// Tests whether the text matches the pattern.
pub fn glob_match(pattern: &str, text: &str) -> (matched: bool)
    ensures
        matched == glob(pattern@, text@),
{
    let p: Vec<char> = chars_of(pattern);
    let t: Vec<char> = chars_of(text);
    assert(p@.skip(0) =~= p@ && t@.skip(0) =~= t@);
    glob_inner(p.as_slice(), t.as_slice(), 0, 0)
}

/// Tests whether the text from `ti` on matches the pattern from `pi` on.
pub fn glob_inner(p: &[char], t: &[char], pi: usize, ti: usize) -> (matched: bool)
    requires
        pi <= p@.len(),
        ti <= t@.len(),
    ensures
        matched == glob(p@.skip(pi as int), t@.skip(ti as int)),
    decreases p@.len() - pi,
{
    let mut i: usize = pi;
    let mut j: usize = ti;
    let ghost whole = glob(p@.skip(pi as int), t@.skip(ti as int));
    loop
        invariant
            pi <= i <= p@.len(),
            j <= t@.len(),
            whole == glob(p@.skip(pi as int), t@.skip(ti as int)),
            whole == glob(p@.skip(i as int), t@.skip(j as int)),
        decreases p@.len() - i,
    {
        let ghost pat = p@.skip(i as int);
        let ghost txt = t@.skip(j as int);
        if i == p.len() {
            return j == t.len();
        }
        if p[i] == '*' && i + 1 < p.len() && p[i + 1] == '*' {
            let mut next: usize = i + 2;
            if next < p.len() && p[next] == '/' {
                next = next + 1;
            }
            assert(p@.skip(next as int) =~= after_stars(pat));
            let mut k: usize = j;
            loop
                invariant
                    pi <= i < next <= p@.len(),
                    j <= k <= t@.len(),
                    txt == t@.skip(j as int),
                    pat == p@.skip(i as int),
                    p@.skip(next as int) == after_stars(pat),
                    pat.len() > 1 && pat[0] == '*' && pat[1] == '*',
                    whole == glob(p@.skip(pi as int), t@.skip(ti as int)),
                    whole == glob(pat, txt),
                    forall|n: int|
                        0 <= n < k - j ==> !glob(after_stars(pat), #[trigger] txt.skip(n)),
                decreases t@.len() - k,
            {
                assert(t@.skip(k as int) =~= txt.skip(k - j));
                if glob_inner(p, t, next, k) {
                    return true;
                }
                if k == t.len() {
                    return false;
                }
                k = k + 1;
            }
        }
        if p[i] == '*' {
            let next: usize = i + 1;
            let mut k: usize = j;
            assert(p@.skip(next as int) =~= pat.skip(1));
            loop
                invariant
                    pi <= i < next <= p@.len(),
                    j <= k <= t@.len(),
                    txt == t@.skip(j as int),
                    pat == p@.skip(i as int),
                    p@.skip(next as int) == pat.skip(1),
                    pat[0] == '*',
                    !(pat.len() > 1 && pat[1] == '*'),
                    no_slash(txt.take(k - j)),
                    whole == glob(p@.skip(pi as int), t@.skip(ti as int)),
                    whole == glob(pat, txt),
                    forall|n: int|
                        0 <= n < k - j ==> !glob(pat.skip(1), #[trigger] txt.skip(n)),
                decreases t@.len() - k,
            {
                assert(t@.skip(k as int) =~= txt.skip(k - j));
                if glob_inner(p, t, next, k) {
                    return true;
                }
                if k == t.len() {
                    return false;
                }
                if t[k] == '/' {
                    proof {
                        assert forall|n: int| k - j < n <= txt.len() implies !no_slash(
                            #[trigger] txt.take(n),
                        ) by {
                            assert(txt.take(n)[k - j] == '/');
                        }
                    }
                    return false;
                }
                proof {
                    lemma_no_slash_push(txt, k - j);
                }
                k = k + 1;
            }
        }
        if j == t.len() {
            return false;
        }
        assert(p@.skip(i + 1) =~= pat.skip(1));
        assert(t@.skip(j + 1) =~= txt.skip(1));
        if p[i] == '?' {
            if t[j] == '/' {
                return false;
            }
        } else if to_upper(p[i]) != to_upper(t[j]) {
            return false;
        }
        i = i + 1;
        j = j + 1;
    }
}

proof fn lemma_no_slash_push(t: Seq<char>, n: int)
    requires
        0 <= n < t.len(),
        no_slash(t.take(n)),
        t[n] != '/',
    ensures
        no_slash(t.take(n + 1)),
{
    if t.take(n + 1).contains('/') {
        let i = t.take(n + 1).index_of('/');
        assert(t.take(n + 1)[i] == '/');
        assert(t.take(n)[i] == '/');
    }
}

// ---------------------------------------------------------------------------
// Rules
// ---------------------------------------------------------------------------

/// What a rule does with the paths that it matches.
#[derive(Debug, Clone, Copy, PartialEq, Eq, Structural)]
pub enum RuleKind {
    Include,
    Exclude,
}

/// A filter rule.
#[derive(Debug, Clone)]
pub struct Rule {
    kind: RuleKind,
    pattern: Vec<char>,
    anchored: bool,
    dir_only: bool,
}

/// A filter rule as a value.
pub struct RuleView {
    pub kind: RuleKind,
    pub pattern: Seq<char>,
    /// The pattern has a separator and is held against the whole path.
    pub anchored: bool,
    /// The rule was written with a separator at its end and matches
    /// directories only.
    pub dir_only: bool,
}

impl View for Rule {
    type V = RuleView;

    closed spec fn view(&self) -> RuleView {
        RuleView {
            kind: self.kind,
            pattern: self.pattern@,
            anchored: self.anchored,
            dir_only: self.dir_only,
        }
    }
}

/// The text without separators at its end.
pub open spec fn stripped(raw: Seq<char>) -> Seq<char>
    decreases raw.len(),
{
    if raw.len() > 0 && raw.last() == '/' {
        stripped(raw.drop_last())
    } else {
        raw
    }
}

/// The rule that a text stands for.
pub open spec fn rule_of(kind: RuleKind, raw: Seq<char>) -> RuleView {
    RuleView {
        kind,
        pattern: stripped(raw),
        anchored: stripped(raw).contains('/'),
        dir_only: raw.len() > 0 && raw.last() == '/',
    }
}

/// The rule matches the path: an anchored pattern the whole path, any other
/// the whole path or one of its components.
pub open spec fn rule_matches(rule: RuleView, rel: Seq<char>, is_dir: bool) -> bool {
    &&& rule.dir_only ==> is_dir
    &&& glob(rule.pattern, rel) || (!rule.anchored && exists|i: int|
        0 <= i < component_spans(rel).len() && glob(
            rule.pattern,
            span_text(rel, #[trigger] component_spans(rel)[i]),
        ))
}

impl Rule {
    /// The rule that a text stands for.
    pub fn new(kind: RuleKind, raw: &str) -> (rule: Rule)
        ensures
            rule@ == rule_of(kind, raw@),
    {
        let chars: Vec<char> = chars_of(raw);
        Rule::from_chars(kind, chars.as_slice())
    }

    /// The rule that the characters stand for.
    pub fn from_chars(kind: RuleKind, raw: &[char]) -> (rule: Rule)
        ensures
            rule@ == rule_of(kind, raw@),
    {
        let dir_only: bool = raw.len() > 0 && raw[raw.len() - 1] == '/';
        let mut end: usize = raw.len();
        assert(raw@.take(end as int) =~= raw@);
        while end > 0 && raw[end - 1] == '/'
            invariant
                end <= raw@.len(),
                stripped(raw@.take(end as int)) == stripped(raw@),
            decreases end,
        {
            assert(raw@.take(end as int).drop_last() =~= raw@.take(end - 1));
            end = end - 1;
        }
        let pattern: Vec<char> = slice_to_vec(slice_subrange(raw, 0, end));
        assert(pattern@ =~= stripped(raw@));
        let anchored: bool = has_char(pattern.as_slice(), '/');
        Rule { kind, pattern, anchored, dir_only }
    }

    /// Tests whether the rule matches the path.
    pub fn matches(&self, rel: &[char], is_dir: bool) -> (matched: bool)
        ensures
            matched == rule_matches(self@, rel@, is_dir),
    {
        if self.dir_only && !is_dir {
            return false;
        }
        let p = self.pattern.as_slice();
        assert(p@.skip(0) =~= p@ && rel@.skip(0) =~= rel@);
        if glob_inner(p, rel, 0, 0) {
            return true;
        }
        if self.anchored {
            return false;
        }
        let spans = components(rel);
        let mut i: usize = 0;
        while i < spans.len()
            invariant
                i <= spans@.len(),
                p@ == self@.pattern,
                p@.skip(0) == p@,
                span_views(spans@) == component_spans(rel@),
                forall|k: int|
                    0 <= k < spans@.len() ==> (#[trigger] spans@[k]).0 < spans@[k].1 <= rel@.len(),
                !self@.anchored,
                self@.dir_only ==> is_dir,
                forall|k: int|
                    0 <= k < i ==> !glob(
                        self@.pattern,
                        span_text(rel@, #[trigger] component_spans(rel@)[k]),
                    ),
            decreases spans@.len() - i,
        {
            let name = slice_subrange(rel, spans[i].0, spans[i].1);
            assert(span_views(spans@)[i as int] == component_spans(rel@)[i as int]);
            assert(name@ == span_text(rel@, component_spans(rel@)[i as int]));
            assert(name@.skip(0) =~= name@);
            if glob_inner(p, name, 0, 0) {
                return true;
            }
            i = i + 1;
        }
        assert(component_spans(rel@).len() == spans@.len());
        false
    }
}

/// An ordered list of rules; the first that matches a path decides on it.
#[derive(Debug, Clone)]
pub struct FilterList(pub Vec<Rule>);

/// The rules of a list.
pub open spec fn rule_views(rules: Seq<Rule>) -> Seq<RuleView> {
    Seq::new(rules.len(), |i: int| rules[i]@)
}

/// What the first matching rule says, of all rules or of those for directories
/// only.
pub open spec fn decided(
    rules: Seq<RuleView>,
    rel: Seq<char>,
    is_dir: bool,
    dirs_only: bool,
) -> Option<RuleKind>
    decreases rules.len(),
{
    if rules.len() == 0 {
        None
    } else if (dirs_only ==> rules[0].dir_only) && rule_matches(rules[0], rel, is_dir) {
        Some(rules[0].kind)
    } else {
        decided(rules.drop_first(), rel, is_dir, dirs_only)
    }
}

/// The directory that the first `n` components of a path lead to.
pub open spec fn leading_dir(rel: Seq<char>, n: int) -> Seq<char> {
    rel.take(component_spans(rel)[n - 1].1)
}

/// What the rules for directories say of the nearest directory on the way to
/// the path that they say anything of, among those of up to `n` components.
pub open spec fn inherited(rules: Seq<RuleView>, rel: Seq<char>, n: int) -> Option<RuleKind>
    decreases n,
{
    if n <= 0 {
        None
    } else {
        match decided(rules, leading_dir(rel, n), true, true) {
            Some(kind) => Some(kind),
            None => inherited(rules, rel, n - 1),
        }
    }
}

/// The path takes part: by the first rule that matches it; failing that by the
/// directory rules for its ancestors; failing that in any case.
pub open spec fn allowed(rules: Seq<RuleView>, rel: Seq<char>, is_dir: bool) -> bool {
    match decided(rules, rel, is_dir, false) {
        Some(kind) => kind == RuleKind::Include,
        None => match inherited(rules, rel, component_spans(rel).len() - 1) {
            Some(kind) => kind == RuleKind::Include,
            None => true,
        },
    }
}

/// The rules in lines of text: one in each line, white space around it left
/// out, but for empty lines and comments.
pub open spec fn rules_in(kind: RuleKind, lines: Seq<Seq<char>>) -> Seq<RuleView>
    decreases lines.len(),
{
    if lines.len() == 0 {
        Seq::empty()
    } else {
        let before = rules_in(kind, lines.drop_last());
        let line = trimmed(lines.last());
        if line.len() == 0 || line[0] == '#' {
            before
        } else {
            before.push(rule_of(kind, line))
        }
    }
}

impl Default for FilterList {
    /// No rules.
    fn default() -> (list: FilterList)
        ensures
            list@ == Seq::<RuleView>::empty(),
    {
        let list = FilterList(Vec::new());
        assert(list@ =~= Seq::<RuleView>::empty());
        list
    }
}

impl View for FilterList {
    type V = Seq<RuleView>;

    open spec fn view(&self) -> Seq<RuleView> {
        rule_views(self.0@)
    }
}

impl FilterList {
    /// Tests whether there are no rules.
    pub fn is_empty(&self) -> (empty: bool)
        ensures
            empty == (self@.len() == 0),
    {
        self.0.len() == 0
    }

    /// Adds a rule that leaves paths out.
    pub fn add_exclude(&mut self, pat: &str)
        ensures
            final(self)@ == old(self)@.push(rule_of(RuleKind::Exclude, pat@)),
    {
        self.0.push(Rule::new(RuleKind::Exclude, pat));
        assert(self@ =~= old(self)@.push(rule_of(RuleKind::Exclude, pat@)));
    }

    /// Adds a rule that takes paths in.
    pub fn add_include(&mut self, pat: &str)
        ensures
            final(self)@ == old(self)@.push(rule_of(RuleKind::Include, pat@)),
    {
        self.0.push(Rule::new(RuleKind::Include, pat));
        assert(self@ =~= old(self)@.push(rule_of(RuleKind::Include, pat@)));
    }

    /// Adds the rules in the lines of a text.
    pub fn load_from_text(&mut self, kind: RuleKind, text: &str)
        ensures
            final(self)@ == old(self)@ + rules_in(kind, segments(text@, '\n')),
    {
        let chars: Vec<char> = chars_of(text);
        let lines: Vec<Vec<char>> = split(chars.as_slice(), '\n');
        let ghost views = texts(lines@);
        let mut i: usize = 0;
        assert(views.take(0) =~= Seq::empty());
        assert(self@ =~= old(self)@ + rules_in(kind, views.take(0)));
        while i < lines.len()
            invariant
                i <= lines@.len(),
                views == texts(lines@),
                self@ == old(self)@ + rules_in(kind, views.take(i as int)),
            decreases lines@.len() - i,
        {
            let ghost before = self@;
            assert(views.take(i + 1).drop_last() =~= views.take(i as int));
            let line = trim(lines[i].as_slice());
            if line.len() > 0 && line[0] != '#' {
                self.0.push(Rule::from_chars(kind, line));
                assert(self@ =~= before.push(rule_of(kind, line@)));
            }
            assert(self@ =~= old(self)@ + rules_in(kind, views.take(i + 1)));
            i = i + 1;
        }
        assert(views.take(i as int) =~= views);
    }

    /// What the first matching rule says, of all rules or of those for
    /// directories only.
    fn decide(&self, rel: &[char], is_dir: bool, dirs_only: bool) -> (d: Option<RuleKind>)
        ensures
            d == decided(self@, rel@, is_dir, dirs_only),
    {
        let mut i: usize = 0;
        assert(self@.skip(0) =~= self@);
        while i < self.0.len()
            invariant
                i <= self@.len() == self.0@.len(),
                decided(self@, rel@, is_dir, dirs_only) == decided(
                    self@.skip(i as int),
                    rel@,
                    is_dir,
                    dirs_only,
                ),
            decreases self@.len() - i,
        {
            assert(self@.skip(i as int).drop_first() =~= self@.skip(i + 1));
            let rule = &self.0[i];
            assert(self@.skip(i as int)[0] == rule@);
            if (!dirs_only || rule.dir_only) && rule.matches(rel, is_dir) {
                return Some(rule.kind);
            }
            i = i + 1;
        }
        None
    }

    /// Tests whether the path takes part.
    pub fn allow(&self, rel: &str, is_dir: bool) -> (allow: bool)
        ensures
            allow == allowed(self@, rel@, is_dir),
    {
        let chars: Vec<char> = chars_of(rel);
        match self.decide(chars.as_slice(), is_dir, false) {
            Some(kind) => {
                return kind == RuleKind::Include;
            },
            None => {},
        }
        let spans = components(chars.as_slice());
        assert(component_spans(rel@).len() == spans@.len());
        let mut n: usize = spans.len();
        while n > 1
            invariant
                n <= spans@.len(),
                chars@ == rel@,
                span_views(spans@) == component_spans(rel@),
                forall|k: int|
                    0 <= k < spans@.len() ==> (#[trigger] spans@[k]).0 < spans@[k].1 <= rel@.len(),
                decided(self@, rel@, is_dir, false) is None,
                inherited(self@, rel@, component_spans(rel@).len() - 1) == inherited(
                    self@,
                    rel@,
                    n - 1,
                ),
            decreases n,
        {
            n = n - 1;
            let dir = slice_subrange(chars.as_slice(), 0, spans[n - 1].1);
            assert(span_views(spans@)[n - 1] == component_spans(rel@)[n - 1]);
            assert(dir@ =~= leading_dir(rel@, n as int));
            match self.decide(dir, true, true) {
                Some(kind) => {
                    return kind == RuleKind::Include;
                },
                None => {},
            }
        }
        true
    }
}

// ---------------------------------------------------------------------------
// Sizes
// ---------------------------------------------------------------------------

/// Why a size is refused.
#[derive(Debug, Clone, Copy, PartialEq, Eq, Structural)]
pub enum SizeError {
    /// Not a number.
    Invalid,
    /// No unit has this letter.
    UnknownSuffix(char),
    /// More than 64 bits can hold.
    Overflow,
}

/// An ASCII letter.
pub open spec fn is_letter(c: char) -> bool {
    'a' <= c <= 'z' || 'A' <= c <= 'Z'
}

/// How many bytes a unit stands for.
pub open spec fn unit_bytes(letter: char) -> Option<int> {
    if letter == 'B' {
        Some(1int)
    } else if letter == 'K' {
        Some(1024int)
    } else if letter == 'M' {
        Some(1024int * 1024)
    } else if letter == 'G' {
        Some(1024int * 1024 * 1024)
    } else if letter == 'T' {
        Some(1024int * 1024 * 1024 * 1024)
    } else {
        None
    }
}

/// So many units.
pub open spec fn sized(number: Seq<char>, letter: char) -> Result<int, SizeError> {
    match parsed(number, u64::MAX as int) {
        None => Err(SizeError::Invalid),
        Some(base) => match unit_bytes(letter) {
            None => Err(SizeError::UnknownSuffix(letter)),
            Some(unit) => if base * unit <= u64::MAX {
                Ok(base * unit)
            } else {
                Err(SizeError::Overflow)
            },
        },
    }
}

/// The size that a text stands for: a number, then a letter for the unit, in
/// either case, or none for bytes; white space around it is left out.
pub open spec fn size_of_text(s: Seq<char>) -> Result<int, SizeError> {
    let t = trimmed(s);
    if t.len() > 0 && is_letter(t.last()) {
        sized(t.drop_last(), upper(t.last()))
    } else {
        sized(t, 'B')
    }
}

/// Parses a size.
pub fn parse_size(s: &str) -> (r: Result<u64, SizeError>)
    ensures
        match r {
            Ok(n) => size_of_text(s@) == Ok::<int, SizeError>(n as int),
            Err(e) => size_of_text(s@) == Err::<int, SizeError>(e),
        },
{
    let chars: Vec<char> = chars_of(s);
    let t = trim(chars.as_slice());
    let mut end: usize = t.len();
    let mut letter: char = 'B';
    assert(t@.take(end as int) =~= t@);
    if t.len() > 0 {
        let last: char = t[t.len() - 1];
        if ('a' <= last && last <= 'z') || ('A' <= last && last <= 'Z') {
            end = t.len() - 1;
            letter = to_upper(last);
            assert(t@.take(end as int) =~= t@.drop_last());
        }
    }
    let number = slice_subrange(t, 0, end);
    assert(number@ =~= t@.take(end as int));
    let base: u64 = match parse_number(number, u64::MAX) {
        Some(base) => base,
        None => {
            return Err(SizeError::Invalid);
        },
    };
    let unit: u64 = if letter == 'B' {
        1
    } else if letter == 'K' {
        1024
    } else if letter == 'M' {
        1024 * 1024
    } else if letter == 'G' {
        1024 * 1024 * 1024
    } else if letter == 'T' {
        1024 * 1024 * 1024 * 1024
    } else {
        return Err(SizeError::UnknownSuffix(letter));
    };
    match base.checked_mul(unit) {
        Some(n) => Ok(n),
        None => Err(SizeError::Overflow),
    }
}

// ---------------------------------------------------------------------------
// Laws
// ---------------------------------------------------------------------------

/// A pattern without `*` and `?` matches exactly the texts that equal it but
/// for the case of ASCII letters.
pub proof fn law_plain_pattern_matches_itself(p: Seq<char>, t: Seq<char>)
    requires
        !p.contains('*'),
        !p.contains('?'),
    ensures
        glob(p, t) <==> p.len() == t.len() && forall|i: int|
            0 <= i < p.len() ==> upper(#[trigger] p[i]) == upper(t[i]),
    decreases p.len(),
{
    if p.len() > 0 {
        assert(p.contains(p[0]));
        if t.len() > 0 {
            assert forall|c: char| p.skip(1).contains(c) implies p.contains(c) by {
                let i = p.skip(1).index_of(c);
                assert(p[i + 1] == c);
            }
            law_plain_pattern_matches_itself(p.skip(1), t.skip(1));
            if glob(p, t) {
                assert forall|i: int| 0 <= i < p.len() implies upper(#[trigger] p[i]) == upper(
                    t[i],
                ) by {
                    if i > 0 {
                        assert(p.skip(1)[i - 1] == p[i] && t.skip(1)[i - 1] == t[i]);
                    }
                }
            }
        }
    }
}

/// Two stars alone match every text.
pub proof fn law_double_star_matches_everything(t: Seq<char>)
    ensures
        glob(seq!['*', '*'], t),
{
    let p = seq!['*', '*'];
    assert(after_stars(p) =~= Seq::empty());
    assert(t.skip(t.len() as int) =~= Seq::empty());
    assert(glob(after_stars(p), t.skip(t.len() as int)));
}

/// One star alone matches exactly the texts without a separator.
pub proof fn law_star_stops_at_separators(t: Seq<char>)
    ensures
        glob(seq!['*'], t) <==> no_slash(t),
{
    let p = seq!['*'];
    assert(p.skip(1) =~= Seq::empty());
    assert(t.take(t.len() as int) =~= t);
    assert(t.skip(t.len() as int) =~= Seq::empty());
    assert(glob(p.skip(1), t.skip(t.len() as int)));
    assert forall|n: int| 0 <= n <= t.len() && glob(p.skip(1), #[trigger] t.skip(n)) implies n
        == t.len() by {
        assert(t.skip(n).len() == t.len() - n);
    }
}

/// The first rule that matches a path decides on it.
pub proof fn law_first_match_wins(rules: Seq<RuleView>, i: int, rel: Seq<char>, is_dir: bool)
    requires
        0 <= i < rules.len(),
        rule_matches(rules[i], rel, is_dir),
        forall|j: int| 0 <= j < i ==> !rule_matches(#[trigger] rules[j], rel, is_dir),
    ensures
        allowed(rules, rel, is_dir) == (rules[i].kind == RuleKind::Include),
{
    lemma_decided_at(rules, i, rel, is_dir);
}

proof fn lemma_decided_at(rules: Seq<RuleView>, i: int, rel: Seq<char>, is_dir: bool)
    requires
        0 <= i < rules.len(),
        rule_matches(rules[i], rel, is_dir),
        forall|j: int| 0 <= j < i ==> !rule_matches(#[trigger] rules[j], rel, is_dir),
    ensures
        decided(rules, rel, is_dir, false) == Some(rules[i].kind),
    decreases i,
{
    if i > 0 {
        let rest = rules.drop_first();
        assert(!rule_matches(rules[0], rel, is_dir));
        assert forall|j: int| 0 <= j < i - 1 implies !rule_matches(
            #[trigger] rest[j],
            rel,
            is_dir,
        ) by {
            assert(rest[j] == rules[j + 1]);
        }
        lemma_decided_at(rest, i - 1, rel, is_dir);
    }
}

/// Rules added behind one that matches a path change nothing for it.
pub proof fn law_later_rules_do_not_matter(
    rules: Seq<RuleView>,
    more: Seq<RuleView>,
    rel: Seq<char>,
    is_dir: bool,
)
    requires
        exists|i: int| 0 <= i < rules.len() && rule_matches(#[trigger] rules[i], rel, is_dir),
    ensures
        allowed(rules + more, rel, is_dir) == allowed(rules, rel, is_dir),
{
    lemma_decided_prefix(rules, more, rel, is_dir);
}

proof fn lemma_decided_prefix(
    rules: Seq<RuleView>,
    more: Seq<RuleView>,
    rel: Seq<char>,
    is_dir: bool,
)
    requires
        exists|i: int| 0 <= i < rules.len() && rule_matches(#[trigger] rules[i], rel, is_dir),
    ensures
        decided(rules, rel, is_dir, false) is Some,
        decided(rules + more, rel, is_dir, false) == decided(rules, rel, is_dir, false),
    decreases rules.len(),
{
    let i = choose|i: int| 0 <= i < rules.len() && rule_matches(#[trigger] rules[i], rel, is_dir);
    if !rule_matches(rules[0], rel, is_dir) {
        let rest = rules.drop_first();
        assert(rest[i - 1] == rules[i]);
        assert((rules + more).drop_first() =~= rest + more);
        lemma_decided_prefix(rest, more, rel, is_dir);
    }
}

/// Some rule matches the path, or a directory rule matches a directory on the
/// way to it.
pub open spec fn touched(rules: Seq<RuleView>, rel: Seq<char>, is_dir: bool) -> bool {
    ||| exists|i: int| 0 <= i < rules.len() && rule_matches(#[trigger] rules[i], rel, is_dir)
    ||| exists|i: int, n: int|
        0 <= i < rules.len() && 1 <= n < component_spans(rel).len() && (
        #[trigger] rules[i]).dir_only && rule_matches(rules[i], #[trigger] leading_dir(rel, n), true)
}

/// With rules that all leave out, a path takes part exactly where no rule
/// matches it and no directory rule matches a directory on the way to it.
pub proof fn law_excludes_only(rules: Seq<RuleView>, rel: Seq<char>, is_dir: bool)
    requires
        forall|i: int| 0 <= i < rules.len() ==> (#[trigger] rules[i]).kind == RuleKind::Exclude,
    ensures
        allowed(rules, rel, is_dir) <==> !touched(rules, rel, is_dir),
{
    lemma_decided(rules, rel, is_dir, false);
    lemma_inherited(rules, rel, component_spans(rel).len() - 1);
}

/// Where no rule matches a path or a directory on the way to it, the path
/// takes part; so does every path where there are no rules.
pub proof fn law_untouched_paths_take_part(rules: Seq<RuleView>, rel: Seq<char>, is_dir: bool)
    requires
        !touched(rules, rel, is_dir),
    ensures
        allowed(rules, rel, is_dir),
{
    lemma_decided(rules, rel, is_dir, false);
    lemma_inherited(rules, rel, component_spans(rel).len() - 1);
}

proof fn lemma_decided(rules: Seq<RuleView>, rel: Seq<char>, is_dir: bool, dirs_only: bool)
    ensures
        decided(rules, rel, is_dir, dirs_only) is Some <==> exists|i: int|
            0 <= i < rules.len() && (dirs_only ==> (#[trigger] rules[i]).dir_only) && rule_matches(
                rules[i],
                rel,
                is_dir,
            ),
        decided(rules, rel, is_dir, dirs_only) is Some ==> exists|i: int|
            0 <= i < rules.len() && (#[trigger] rules[i]).kind == decided(
                rules,
                rel,
                is_dir,
                dirs_only,
            )->0,
    decreases rules.len(),
{
    if rules.len() > 0 {
        let rest = rules.drop_first();
        lemma_decided(rest, rel, is_dir, dirs_only);
        assert forall|i: int| 0 <= i < rest.len() implies #[trigger] rest[i] == rules[i + 1] by {
        }
        assert forall|i: int| 1 <= i < rules.len() implies #[trigger] rules[i] == rest[i - 1] by {
        }
    }
}

proof fn lemma_inherited(rules: Seq<RuleView>, rel: Seq<char>, n: int)
    ensures
        inherited(rules, rel, n) is Some <==> exists|i: int, m: int|
            0 <= i < rules.len() && 1 <= m <= n && (#[trigger] rules[i]).dir_only && rule_matches(
                rules[i],
                #[trigger] leading_dir(rel, m),
                true,
            ),
        inherited(rules, rel, n) is Some ==> exists|i: int|
            0 <= i < rules.len() && (#[trigger] rules[i]).kind == inherited(rules, rel, n)->0,
    decreases n,
{
    if n > 0 {
        lemma_decided(rules, leading_dir(rel, n), true, true);
        lemma_inherited(rules, rel, n - 1);
        if decided(rules, leading_dir(rel, n), true, true) is Some {
            let i = choose|i: int|
                0 <= i < rules.len() && (#[trigger] rules[i]).dir_only && rule_matches(
                    rules[i],
                    leading_dir(rel, n),
                    true,
                );
            assert(rules[i].dir_only && rule_matches(rules[i], leading_dir(rel, n), true));
        }
    }
}

/// The digits of a number stand for that many bytes.
pub proof fn law_plain_size_is_bytes(n: nat)
    requires
        n <= u64::MAX,
    ensures
        size_of_text(decimal(n)) == Ok::<int, SizeError>(n as int),
{
    law_decimal_round_trip(n);
    let s = decimal(n);
    assert(is_digit(s[0]));
    assert(is_digit(s[s.len() - 1]));
    assert(trimmed(s) == s);
    assert(unsigned(s) == s);
}

/// A size with a letter behind its digits is so many units, in either case of the
/// letter and with white space around it or without; a letter that is no unit is
/// refused, and so is a size that 64 bits cannot hold.
pub proof fn law_size_in_units(n: nat, c: char, front: Seq<char>, back: Seq<char>)
    requires
        n <= u64::MAX,
        'a' <= c <= 'z' || 'A' <= c <= 'Z',
        forall|i: int| 0 <= i < front.len() ==> is_space(#[trigger] front[i]),
        forall|i: int| 0 <= i < back.len() ==> is_space(#[trigger] back[i]),
    ensures
        ({
            let size = size_of_text(front + decimal(n).push(c) + back);
            let unit = if c == 'k' || c == 'K' {
                1024int
            } else if c == 'm' || c == 'M' {
                1_048_576int
            } else if c == 'g' || c == 'G' {
                1_073_741_824int
            } else if c == 't' || c == 'T' {
                1_099_511_627_776int
            } else {
                1int
            };
            let known = unit > 1 || c == 'b' || c == 'B';
            &&& known && n * unit <= u64::MAX ==> size == Ok::<int, SizeError>(n * unit)
            &&& known && n * unit > u64::MAX ==> size == Err::<int, SizeError>(SizeError::Overflow)
            &&& !known ==> size matches Err(SizeError::UnknownSuffix(_))
        }),
{
    let s = decimal(n).push(c);
    law_decimal_round_trip(n);
    assert(is_digit(decimal(n)[0]));
    assert(s[0] == decimal(n)[0]);
    law_trim_takes_white_space(front, s, back);
    assert(s.drop_last() =~= decimal(n));
    assert(unsigned(decimal(n)) == decimal(n));
}

/// White space around digits alone changes nothing.
pub proof fn law_size_in_bytes(n: nat, front: Seq<char>, back: Seq<char>)
    requires
        n <= u64::MAX,
        forall|i: int| 0 <= i < front.len() ==> is_space(#[trigger] front[i]),
        forall|i: int| 0 <= i < back.len() ==> is_space(#[trigger] back[i]),
    ensures
        size_of_text(front + decimal(n) + back) == Ok::<int, SizeError>(n as int),
{
    let s = decimal(n);
    law_decimal_round_trip(n);
    assert(is_digit(s[0]));
    assert(is_digit(s[s.len() - 1]));
    law_trim_takes_white_space(front, s, back);
    assert(unsigned(s) == s);
}

// ---------------------------------------------------------------------------
// Laws of patterns
// ---------------------------------------------------------------------------

/// An empty pattern matches the empty text alone. A character that is no wildcard
/// takes one character: itself, or the same ASCII letter in the other case. A
/// question mark takes any one character but a separator. What is left of the
/// pattern goes on with what is left of the text.
pub proof fn law_glob_takes_one_character(c: char, p: Seq<char>, t: Seq<char>)
    ensures
        glob(Seq::empty(), t) <==> t.len() == 0,
        c != '*' && c != '?' ==> (glob(seq![c] + p, t) <==> t.len() > 0 && {
            ||| t[0] == c
            ||| 'a' <= c <= 'z' && t[0] as int == c as int - 32
            ||| 'A' <= c <= 'Z' && t[0] as int == c as int + 32
        } && glob(p, t.skip(1))),
        glob(seq!['?'] + p, t) <==> t.len() > 0 && t[0] != '/' && glob(p, t.skip(1)),
{
    assert((seq![c] + p).skip(1) =~= p);
    assert((seq!['?'] + p).skip(1) =~= p);
    assert((seq![c] + p)[0] == c);
    assert((seq!['?'] + p)[0] == '?');
    if t.len() > 0 {
        lemma_upper(c, t[0]);
    }
}

proof fn lemma_upper(c: char, d: char)
    ensures
        upper(c) == upper(d) <==> {
            ||| d == c
            ||| 'a' <= c <= 'z' && d as int == c as int - 32
            ||| 'A' <= c <= 'Z' && d as int == c as int + 32
        },
{
    if 'a' <= c <= 'z' {
        assert(upper(c) as int == c as int - 32);
    }
    if 'a' <= d <= 'z' {
        assert(upper(d) as int == d as int - 32);
    }
}

/// A star takes any number of characters, none of them a separator.
pub proof fn law_glob_star_takes_any_name(p: Seq<char>, t: Seq<char>)
    requires
        p.len() == 0 || p[0] != '*',
    ensures
        glob(seq!['*'] + p, t) <==> exists|n: int|
            0 <= n <= t.len() && (forall|i: int| 0 <= i < n ==> t[i] != '/') && glob(
                p,
                #[trigger] t.skip(n),
            ),
{
    let pat = seq!['*'] + p;
    assert(pat.skip(1) =~= p);
    assert(pat[0] == '*');
    assert(p.len() > 0 ==> pat[1] == p[0]);
    assert forall|n: int| 0 <= n <= t.len() implies (no_slash(#[trigger] t.take(n)) <==> forall|
        i: int,
    |
        0 <= i < n ==> t[i] != '/') by {
        if !no_slash(t.take(n)) {
            let i = t.take(n).index_of('/');
            assert(t[i] == '/');
        }
        if exists|i: int| 0 <= i < n && t[i] == '/' {
            let i = choose|i: int| 0 <= i < n && t[i] == '/';
            assert(t.take(n)[i] == '/');
        }
    }
    if glob(pat, t) {
        let n = choose|n: int|
            0 <= n <= t.len() && no_slash(t.take(n)) && glob(pat.skip(1), #[trigger] t.skip(n));
        assert(glob(p, t.skip(n)));
    }
    if exists|n: int|
        0 <= n <= t.len() && (forall|i: int| 0 <= i < n ==> t[i] != '/') && glob(
            p,
            #[trigger] t.skip(n),
        ) {
        let n = choose|n: int|
            0 <= n <= t.len() && (forall|i: int| 0 <= i < n ==> t[i] != '/') && glob(
                p,
                #[trigger] t.skip(n),
            );
        assert(no_slash(t.take(n)));
        assert(glob(pat.skip(1), t.skip(n)));
    }
}

/// Two stars take any characters, separators among them, and a separator behind
/// them in the pattern along.
pub proof fn law_glob_stars_take_anything(p: Seq<char>, t: Seq<char>)
    ensures
        p.len() == 0 || p[0] != '/' ==> (glob(seq!['*', '*'] + p, t) <==> exists|n: int|
            0 <= n <= t.len() && glob(p, #[trigger] t.skip(n))),
        glob(seq!['*', '*', '/'] + p, t) <==> exists|n: int|
            0 <= n <= t.len() && glob(p, #[trigger] t.skip(n)),
{
    let pat = seq!['*', '*'] + p;
    let long = seq!['*', '*', '/'] + p;
    assert(pat[0] == '*' && pat[1] == '*');
    assert(long[0] == '*' && long[1] == '*' && long[2] == '/');
    assert(pat.skip(2) =~= p);
    assert(long.skip(3) =~= p);
    assert(p.len() > 0 ==> pat[2] == p[0]);
    assert(after_stars(long) == p);
    if p.len() == 0 || p[0] != '/' {
        assert(after_stars(pat) == p);
    }
}

/// A star in front of a plain text matches exactly the names that end with it,
/// letters in either case: no separator may stand before.
pub proof fn law_glob_by_ending(end: Seq<char>, t: Seq<char>)
    requires
        !end.contains('*'),
        !end.contains('?'),
    ensures
        glob(seq!['*'] + end, t) <==> end.len() <= t.len() && (forall|i: int|
            0 <= i < t.len() - end.len() ==> t[i] != '/') && forall|i: int|
            0 <= i < end.len() ==> upper(#[trigger] end[i]) == upper(t[t.len() - end.len() + i]),
{
    if end.len() > 0 {
        assert(end.contains(end[0]));
    }
    law_glob_star_takes_any_name(end, t);
    let at = t.len() - end.len();
    if glob(seq!['*'] + end, t) {
        let n = choose|n: int|
            0 <= n <= t.len() && (forall|i: int| 0 <= i < n ==> t[i] != '/') && glob(
                end,
                #[trigger] t.skip(n),
            );
        law_plain_pattern_matches_itself(end, t.skip(n));
        assert(n == at);
        assert forall|i: int| 0 <= i < end.len() implies upper(#[trigger] end[i]) == upper(
            t[at + i],
        ) by {
            assert(t.skip(n)[i] == t[at + i]);
        }
    }
    if end.len() <= t.len() && (forall|i: int| 0 <= i < at ==> t[i] != '/') && forall|i: int|
        0 <= i < end.len() ==> upper(#[trigger] end[i]) == upper(t[at + i]) {
        law_plain_pattern_matches_itself(end, t.skip(at));
        assert forall|i: int| 0 <= i < end.len() implies upper(#[trigger] end[i]) == upper(
            t.skip(at)[i],
        ) by {
            assert(t.skip(at)[i] == t[at + i]);
        }
        assert(glob(end, t.skip(at)));
    }
}

// ---------------------------------------------------------------------------
// Laws of rules
// ---------------------------------------------------------------------------

/// A text stands for a rule of the kind asked for, with the text as its pattern;
/// a separator at its end makes it a rule for directories with the same pattern.
pub proof fn law_rule_is_its_text(kind: RuleKind, raw: Seq<char>)
    requires
        raw.len() > 0 ==> raw.last() != '/',
    ensures
        rule_of(kind, raw).kind == kind,
        rule_of(kind, raw).pattern == raw,
        !rule_of(kind, raw).dir_only,
        rule_of(kind, raw).anchored <==> raw.contains('/'),
        rule_of(kind, raw.push('/')) == (RuleView { dir_only: true, ..rule_of(kind, raw) }),
{
    assert(raw.push('/').drop_last() =~= raw);
}

/// More separators at the end of a text change nothing: they are all taken off its
/// pattern.
pub proof fn law_separators_at_the_end_are_taken_off(kind: RuleKind, raw: Seq<char>)
    ensures
        rule_of(kind, raw.push('/').push('/')) == rule_of(kind, raw.push('/')),
        rule_of(kind, raw.push('/')).pattern == rule_of(kind, raw).pattern,
        rule_of(kind, raw.push('/')).dir_only,
        ({
            let pattern = rule_of(kind, raw).pattern;
            pattern.len() > 0 ==> pattern.last() != '/'
        }),
{
    assert(raw.push('/').push('/').drop_last() =~= raw.push('/'));
    assert(raw.push('/').drop_last() =~= raw);
    lemma_stripped_end(raw);
}

proof fn lemma_stripped_end(raw: Seq<char>)
    ensures
        stripped(raw).len() > 0 ==> stripped(raw).last() != '/',
    decreases raw.len(),
{
    if raw.len() > 0 && raw.last() == '/' {
        lemma_stripped_end(raw.drop_last());
    }
}

/// A pattern without a separator matches a path that has a name it matches among
/// its components, wherever that stands: `a` is the way to it, of any length, and
/// `b` what follows it. As the only rule, one that leaves out leaves it out.
pub proof fn law_pattern_matches_in_any_directory(
    kind: RuleKind,
    raw: Seq<char>,
    a: Seq<char>,
    name: Seq<char>,
    b: Seq<char>,
    is_dir: bool,
)
    requires
        !raw.contains('/'),
        a.len() == 0 || a.last() == '/',
        b.len() == 0 || b[0] == '/',
        name.len() > 0,
        !name.contains('/'),
        a.len() > 0 ==> name != seq!['.'],
        glob(raw, name),
    ensures
        rule_matches(rule_of(kind, raw), a + name + b, is_dir),
        !allowed(seq![rule_of(RuleKind::Exclude, raw)], a + name + b, is_dir),
        allowed(seq![rule_of(RuleKind::Include, raw)], a + name + b, is_dir),
{
    if raw.len() > 0 {
        assert(raw.contains(raw.last()));
    }
    law_rule_is_its_text(kind, raw);
    law_rule_is_its_text(RuleKind::Exclude, raw);
    law_rule_is_its_text(RuleKind::Include, raw);
    lemma_has_name(a, name, b);
    let rel = a + name + b;
    let k = a.len() as int;
    let e = k + name.len();
    let n = component_spans(rel).index_of((k, e));
    assert(span_text(rel, component_spans(rel)[n]) =~= name);
    let out = seq![rule_of(RuleKind::Exclude, raw)];
    let taken = seq![rule_of(RuleKind::Include, raw)];
    assert(rule_matches(out[0], rel, is_dir));
    assert(rule_matches(taken[0], rel, is_dir));
    law_first_match_wins(out, 0, rel, is_dir);
    law_first_match_wins(taken, 0, rel, is_dir);
}

/// A name between separators is a component.
proof fn lemma_has_name(a: Seq<char>, name: Seq<char>, b: Seq<char>)
    requires
        a.len() == 0 || a.last() == '/',
        b.len() == 0 || b[0] == '/',
        name.len() > 0,
        !name.contains('/'),
        a.len() > 0 ==> name != seq!['.'],
    ensures
        component_spans(a + name + b).contains((a.len() as int, (a.len() + name.len()) as int)),
{
    let rel = a + name + b;
    let k = a.len() as int;
    let e = k + name.len();
    assert forall|q: int| k <= q < e implies !(#[trigger] rel[q]).slash() by {
        assert(rel[q] == name[q - k]);
        assert(name.contains(name[q - k]));
    }
    if k > 0 {
        assert(rel[k - 1] == a[k - 1]);
    }
    if b.len() > 0 {
        assert(rel[e] == b[0]);
    }
    if name.len() == 1 && name[0] == '.' {
        assert(name =~= seq!['.']);
    }
    assert(rel[k] == name[0]);
    assert(is_piece(rel, k, e));
    law_components_are_the_pieces(rel, k, e);
}

/// A pattern without a separator matches nothing but paths that it matches as a
/// whole and paths with a component that it matches.
pub proof fn law_pattern_matches_by_component_only(
    kind: RuleKind,
    raw: Seq<char>,
    rel: Seq<char>,
    is_dir: bool,
)
    requires
        !raw.contains('/'),
        rule_matches(rule_of(kind, raw), rel, is_dir),
    ensures
        glob(raw, rel) || (rel.len() > 0 && rel[0] == '/' && glob(raw, seq!['/'])) || exists|
            k: int,
            e: int,
        | #[trigger]
            is_piece(rel, k, e) && glob(raw, rel.subrange(k, e)),
{
    if raw.len() > 0 {
        assert(raw.contains(raw.last()));
    }
    law_rule_is_its_text(kind, raw);
    if !glob(raw, rel) {
        let spans = component_spans(rel);
        let i = choose|i: int|
            0 <= i < spans.len() && glob(raw, span_text(rel, #[trigger] spans[i]));
        let (k, e) = spans[i];
        assert(spans.contains((k, e)));
        law_components_are_the_pieces(rel, k, e);
        if !is_piece(rel, k, e) {
            assert(rel.subrange(0, 1) =~= seq!['/']);
        }
    }
}

/// A pattern with a separator in it is held against the whole path alone.
pub proof fn law_pattern_with_separator_is_anchored(
    kind: RuleKind,
    raw: Seq<char>,
    rel: Seq<char>,
    is_dir: bool,
)
    requires
        raw.contains('/'),
        raw.last() != '/',
    ensures
        rule_matches(rule_of(kind, raw), rel, is_dir) <==> glob(raw, rel),
{
    law_rule_is_its_text(kind, raw);
}

/// A rule with a separator at its end matches the directories that the rule without
/// it matches, and nothing else.
pub proof fn law_directory_rule_matches_directories(
    kind: RuleKind,
    raw: Seq<char>,
    rel: Seq<char>,
    is_dir: bool,
)
    requires
        raw.len() > 0,
        raw.last() != '/',
    ensures
        rule_matches(rule_of(kind, raw.push('/')), rel, is_dir) <==> is_dir && rule_matches(
            rule_of(kind, raw),
            rel,
            true,
        ),
        rule_matches(rule_of(kind, raw), rel, true) == rule_matches(rule_of(kind, raw), rel, false),
{
    law_rule_is_its_text(kind, raw);
}

/// Where a rule for directories leaves out a directory, everything below it is left
/// out, however deep it lies: `a` is the way to the directory, `b` the way from
/// there on, and `last` the name at its end.
pub proof fn law_all_below_a_directory_is_left_out(
    raw: Seq<char>,
    a: Seq<char>,
    name: Seq<char>,
    b: Seq<char>,
    last: Seq<char>,
    is_dir: bool,
)
    requires
        raw.len() > 0,
        !raw.contains('/'),
        a.len() == 0 || a.last() == '/',
        name.len() > 0,
        !name.contains('/'),
        a.len() > 0 ==> name != seq!['.'],
        glob(raw, name),
        b.len() == 0 || b.last() == '/',
        last.len() > 0,
        !last.contains('/'),
        last != seq!['.'],
    ensures
        !allowed(
            seq![rule_of(RuleKind::Exclude, raw.push('/'))],
            a + name + seq!['/'] + b + last,
            is_dir,
        ),
{
    let rule = rule_of(RuleKind::Exclude, raw.push('/'));
    let rules = seq![rule];
    let rel = a + name + seq!['/'] + b + last;
    let k = a.len() as int;
    let e = k + name.len();
    assert(raw.contains(raw.last()));
    law_rule_is_its_text(RuleKind::Exclude, raw);
    let behind = seq!['/'] + b + last;
    assert(rel =~= a + name + behind);
    lemma_has_name(a, name, behind);
    let front = a + name + seq!['/'] + b;
    assert(front.last() == if b.len() > 0 {
        b.last()
    } else {
        '/'
    });
    assert(rel =~= front + last + Seq::empty());
    lemma_has_name(front, last, Seq::empty());
    let spans = component_spans(rel);
    let m = spans.index_of((k, e));
    let n = spans.index_of((front.len() as int, (front.len() + last.len()) as int));
    assert(m < n) by {
        if n < m {
            law_components_are_in_order(rel, n, m);
        }
    }
    assert(leading_dir(rel, m + 1) =~= a + name + Seq::empty());
    law_pattern_matches_in_any_directory(RuleKind::Exclude, raw, a, name, Seq::empty(), true);
    law_directory_rule_matches_directories(
        RuleKind::Exclude,
        raw,
        a + name + Seq::empty(),
        true,
    );
    assert(rules[0].dir_only && rule_matches(rules[0], leading_dir(rel, m + 1), true));
    assert(touched(rules, rel, is_dir));
    law_excludes_only(rules, rel, is_dir);
}

/// Where no rule matches a path itself, the nearest directory on the way to it that
/// a rule for directories matches decides, by the first such rule.
pub proof fn law_nearest_directory_decides(
    rules: Seq<RuleView>,
    rel: Seq<char>,
    is_dir: bool,
    i: int,
    n: int,
)
    requires
        forall|k: int| 0 <= k < rules.len() ==> !rule_matches(#[trigger] rules[k], rel, is_dir),
        1 <= n < component_spans(rel).len(),
        forall|m: int, k: int|
            n < m < component_spans(rel).len() && 0 <= k < rules.len() && (
            #[trigger] rules[k]).dir_only ==> !rule_matches(
                rules[k],
                #[trigger] leading_dir(rel, m),
                true,
            ),
        0 <= i < rules.len(),
        rules[i].dir_only,
        rule_matches(rules[i], leading_dir(rel, n), true),
        forall|k: int|
            0 <= k < i && (#[trigger] rules[k]).dir_only ==> !rule_matches(
                rules[k],
                leading_dir(rel, n),
                true,
            ),
    ensures
        allowed(rules, rel, is_dir) == (rules[i].kind == RuleKind::Include),
{
    lemma_decided(rules, rel, is_dir, false);
    lemma_dir_decided_at(rules, i, leading_dir(rel, n));
    lemma_inherited_from(rules, rel, component_spans(rel).len() - 1, n);
}

proof fn lemma_dir_decided_at(rules: Seq<RuleView>, i: int, dir: Seq<char>)
    requires
        0 <= i < rules.len(),
        rules[i].dir_only,
        rule_matches(rules[i], dir, true),
        forall|k: int|
            0 <= k < i && (#[trigger] rules[k]).dir_only ==> !rule_matches(rules[k], dir, true),
    ensures
        decided(rules, dir, true, true) == Some(rules[i].kind),
    decreases i,
{
    if i > 0 {
        let rest = rules.drop_first();
        assert(rules[0].dir_only ==> !rule_matches(rules[0], dir, true));
        assert forall|k: int| 0 <= k < i - 1 && (#[trigger] rest[k]).dir_only implies !rule_matches(
            rest[k],
            dir,
            true,
        ) by {
            assert(rest[k] == rules[k + 1]);
        }
        lemma_dir_decided_at(rest, i - 1, dir);
    }
}

proof fn lemma_inherited_from(rules: Seq<RuleView>, rel: Seq<char>, from: int, n: int)
    requires
        1 <= n <= from < component_spans(rel).len(),
        forall|m: int, k: int|
            n < m < component_spans(rel).len() && 0 <= k < rules.len() && (
            #[trigger] rules[k]).dir_only ==> !rule_matches(
                rules[k],
                #[trigger] leading_dir(rel, m),
                true,
            ),
    ensures
        inherited(rules, rel, from) == inherited(rules, rel, n),
    decreases from,
{
    if from > n {
        lemma_decided(rules, leading_dir(rel, from), true, true);
        lemma_inherited_from(rules, rel, from - 1, n);
    }
}

/// Lines of rules are read one by one, in order: an empty line, or one of white
/// space, and a line that begins with `#` stands for no rule, every other line for
/// the rule of its text without the white space around it.
pub proof fn law_rules_are_read_line_by_line(
    kind: RuleKind,
    a: Seq<Seq<char>>,
    b: Seq<Seq<char>>,
    front: Seq<char>,
    line: Seq<char>,
    back: Seq<char>,
)
    requires
        forall|i: int| 0 <= i < front.len() ==> is_space(#[trigger] front[i]),
        forall|i: int| 0 <= i < back.len() ==> is_space(#[trigger] back[i]),
        line.len() > 0 ==> !is_space(line[0]) && !is_space(line.last()),
    ensures
        rules_in(kind, a + b) == rules_in(kind, a) + rules_in(kind, b),
        rules_in(kind, seq![front + line + back]) == if line.len() == 0 || line[0] == '#' {
            Seq::<RuleView>::empty()
        } else {
            seq![rule_of(kind, line)]
        },
    decreases b.len(),
{
    law_trim_takes_white_space(front, line, back);
    let one = seq![front + line + back];
    reveal_with_fuel(rules_in, 2);
    assert(one.drop_last() =~= Seq::empty());
    assert(Seq::empty().push(rule_of(kind, line)) =~= seq![rule_of(kind, line)]);
    if b.len() == 0 {
        assert(a + b =~= a);
        assert(rules_in(kind, a) + Seq::empty() =~= rules_in(kind, a));
    } else {
        assert((a + b).drop_last() =~= a + b.drop_last());
        law_rules_are_read_line_by_line(kind, a, b.drop_last(), front, line, back);
        assert(rules_in(kind, a + b) =~= rules_in(kind, a) + rules_in(kind, b));
    }
}

} // verus!
