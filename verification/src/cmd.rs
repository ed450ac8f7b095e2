//! The path-fragment matching engine: a parser that decomposes dot/slash
//! delimited path-like strings into ordered `(prefix, optional index)`
//! fragments, and a resolver that selects, among a candidate set of file
//! names, the ones that satisfy a partially specified query.

use vstd::prelude::*;

use crate::digits::{is_digit_char, usize_str_ok, usize_str_val};

verus! {

/// Ghost model of a fragment: the prefix characters and the optional index.
#[verifier::ext_equal]
pub struct FragModel {
    pub prefix: Seq<char>,
    pub index: Option<usize>,
}

/// Ghost model of a parsed path: the diagnostic string and the fragments.
#[verifier::ext_equal]
pub struct PathModel {
    pub value: Seq<char>,
    pub fragments: Seq<FragModel>,
}

/// Ghost model of a path parse error.
pub enum PathErrModel {
    Empty,
    InvalidPath(Seq<char>),
    InvalidIndex(Seq<char>),
}

/// Errors of fragment and path parsing.
#[derive(Debug)]
pub enum ParsePathError {
    /// An empty token or query string was given.
    Empty,
    /// A path whose final component could not be read as text.
    InvalidPath(String),
    /// A token whose digit suffix failed the integer parse.
    InvalidIndex(String),
}

impl View for ParsePathError {
    type V = PathErrModel;

    open spec fn view(&self) -> PathErrModel {
        match self {
            ParsePathError::Empty => PathErrModel::Empty,
            ParsePathError::InvalidPath(p) => PathErrModel::InvalidPath(p@),
            ParsePathError::InvalidIndex(t) => PathErrModel::InvalidIndex(t@),
        }
    }
}

/// One fragment of a path-like token: a literal prefix and, where a digit
/// run followed it, the numeric index.
#[derive(Debug, Clone)]
pub struct ArgPathFragment {
    pub prefix: String,
    pub index: Option<usize>,
}

impl View for ArgPathFragment {
    type V = FragModel;

    open spec fn view(&self) -> FragModel {
        FragModel { prefix: self.prefix@, index: self.index }
    }
}

impl PartialEq for ArgPathFragment {
    fn eq(&self, other: &ArgPathFragment) -> (r: bool) {
        self.prefix == other.prefix && match (self.index, other.index) {
            (Some(a), Some(b)) => a == b,
            (None, None) => true,
            _ => false,
        }
    }
}

impl vstd::std_specs::cmp::PartialEqSpecImpl for ArgPathFragment {
    open spec fn obeys_eq_spec() -> bool {
        true
    }

    open spec fn eq_spec(&self, other: &ArgPathFragment) -> bool {
        self@ == other@
    }
}

/// The fragment models of a fragment sequence.
pub open spec fn models(v: Seq<ArgPathFragment>) -> Seq<FragModel> {
    v.map_values(|f: ArgPathFragment| f@)
}

/// Position of the first decimal digit of `t`, or `t.len()` if there is none.
pub open spec fn first_digit_pos(t: Seq<char>) -> int
    decreases t.len(),
{
    if t.len() == 0 {
        0
    } else if is_digit_char(t[0]) {
        0
    } else {
        1 + first_digit_pos(t.drop_first())
    }
}

/// `first_digit_pos` is the least position holding a digit.
pub proof fn lemma_first_digit_pos(t: Seq<char>)
    ensures
        0 <= first_digit_pos(t) <= t.len(),
        forall|k: int| 0 <= k < first_digit_pos(t) ==> !is_digit_char(t[k]),
        first_digit_pos(t) < t.len() ==> is_digit_char(t[first_digit_pos(t)]),
    decreases t.len(),
{
    if t.len() > 0 && !is_digit_char(t[0]) {
        lemma_first_digit_pos(t.drop_first());
        assert forall|k: int| 1 <= k < first_digit_pos(t) implies !is_digit_char(t[k]) by {
            assert(t.drop_first()[k - 1] == t[k]);
        }
        if first_digit_pos(t) < t.len() {
            assert(t.drop_first()[first_digit_pos(t) - 1] == t[first_digit_pos(t)]);
        }
    }
}

/// A position below which no digit stands, and which holds one unless at the
/// end, is the first digit position.
pub proof fn lemma_first_digit_pos_is(t: Seq<char>, q: int)
    requires
        0 <= q <= t.len(),
        forall|k: int| 0 <= k < q ==> !is_digit_char(t[k]),
        q < t.len() ==> is_digit_char(t[q]),
    ensures
        first_digit_pos(t) == q,
    decreases t.len(),
{
    if q == 0 {
    } else {
        assert(!is_digit_char(t[0]));
        assert(forall|k: int| 0 <= k < q - 1 ==> !is_digit_char(#[trigger] t.drop_first()[k]));
        assert(q - 1 < t.drop_first().len() ==> is_digit_char(t.drop_first()[q - 1]));
        lemma_first_digit_pos_is(t.drop_first(), q - 1);
    }
}

/// What parsing one token yields: the whole token as prefix where no digit
/// occurs; otherwise the run from the first digit on must read as a `usize`.
pub open spec fn frag_parse(t: Seq<char>) -> Result<FragModel, PathErrModel> {
    if t.len() == 0 {
        Result::Err(PathErrModel::Empty)
    } else {
        let p = first_digit_pos(t);
        if p == t.len() {
            Result::Ok(FragModel { prefix: t, index: Option::None })
        } else {
            let suffix = t.subrange(p, t.len() as int);
            if usize_str_ok(suffix) {
                Result::Ok(
                    FragModel {
                        prefix: t.subrange(0, p),
                        index: Option::Some(usize_str_val(suffix) as usize),
                    },
                )
            } else {
                Result::Err(PathErrModel::InvalidIndex(t))
            }
        }
    }
}

fn is_digit_exec(c: char) -> (r: bool)
    ensures
        r == is_digit_char(c),
{
    '0' <= c && c <= '9'
}

impl ArgPathFragment {
    /// Splits a token at its first decimal digit into a literal prefix and a
    /// numeric index; a token without digits is all prefix, and an empty
    /// token is rejected.
    #[verifier::loop_isolation(false)]
    pub fn parse(s: &str) -> (r: Result<ArgPathFragment, ParsePathError>)
        ensures
            match r {
                Result::Ok(f) => frag_parse(s@) == Result::<FragModel, PathErrModel>::Ok(f@),
                Result::Err(e) => frag_parse(s@) == Result::<FragModel, PathErrModel>::Err(e@),
            },
    {
        let n = s.unicode_len();
        if n == 0 {
            return Result::Err(ParsePathError::Empty);
        }
        let mut p: usize = 0;
        while p < n && !is_digit_exec(s.get_char(p))
            invariant
                0 <= p <= n,
                forall|k: int| 0 <= k < p ==> !is_digit_char(s@[k]),
            decreases n - p,
        {
            p = p + 1;
        }
        proof {
            lemma_first_digit_pos_is(s@, p as int);
        }
        if p == n {
            let f = ArgPathFragment { prefix: s.to_owned(), index: Option::None };
            proof {
                assert(f@ =~= frag_parse(s@)->Ok_0);
            }
            return Result::Ok(f);
        }
        let suffix = s.substring_char(p, n);
        proof {
            assert(suffix@ =~= s@.subrange(p as int, n as int));
        }
        match crate::digits::parse_usize(suffix) {
            Option::Some(v) => {
                let f = ArgPathFragment {
                    prefix: s.substring_char(0, p).to_owned(),
                    index: Option::Some(v),
                };
                proof {
                    assert(f@ =~= frag_parse(s@)->Ok_0);
                }
                Result::Ok(f)
            },
            Option::None => Result::Err(ParsePathError::InvalidIndex(s.to_owned())),
        }
    }
}

/// `s` split on `sep`, exactly as `str::split` yields the pieces: one piece
/// more than there are separators, and an empty `s` giving one empty piece.
pub open spec fn split_chars(s: Seq<char>, sep: char) -> Seq<Seq<char>>
    decreases s.len(),
{
    if s.len() == 0 {
        seq![Seq::<char>::empty()]
    } else {
        let rest = split_chars(s.drop_first(), sep);
        if s[0] == sep {
            seq![Seq::<char>::empty()] + rest
        } else {
            seq![seq![s[0]] + rest[0]] + rest.drop_first()
        }
    }
}

pub proof fn lemma_split_chars_len(s: Seq<char>, sep: char)
    ensures
        split_chars(s, sep).len() >= 1,
    decreases s.len(),
{
    if s.len() > 0 {
        lemma_split_chars_len(s.drop_first(), sep);
    }
}

/// The current piece joined onto the head of the remaining split.
spec fn merge_head(cur: Seq<char>, rest: Seq<Seq<char>>) -> Seq<Seq<char>> {
    seq![cur + rest[0]] + rest.drop_first()
}

/// Splits a string on a separator character, as `str::split` does.
#[verifier::loop_isolation(false)]
#[verifier::rlimit(60)]
pub fn split_str(s: &str, sep: char) -> (r: Vec<String>)
    ensures
        r.deep_view() == split_chars(s@, sep),
{
    let n = s.unicode_len();
    let mut out: Vec<String> = Vec::new();
    let mut start: usize = 0;
    let mut i: usize = 0;
    proof {
        lemma_split_chars_len(s@, sep);
        assert(s@.subrange(0, n as int) =~= s@);
        assert(merge_head(s@.subrange(0, 0), split_chars(s@, sep)) =~= split_chars(s@, sep));
    }
    while i < n
        invariant
            0 <= start <= i <= n,
            split_chars(s@, sep) =~= out.deep_view() + merge_head(
                s@.subrange(start as int, i as int),
                split_chars(s@.subrange(i as int, n as int), sep),
            ),
        decreases n - i,
    {
        let ghost tail_i = s@.subrange(i as int, n as int);
        let ghost tail_i1 = s@.subrange(i + 1, n as int);
        proof {
            assert(tail_i.drop_first() =~= tail_i1);
            assert(tail_i[0] == s@[i as int]);
            lemma_split_chars_len(tail_i1, sep);
        }
        let c = s.get_char(i);
        if c == sep {
            let piece = s.substring_char(start, i).to_owned();
            proof {
                assert(piece@ =~= s@.subrange(start as int, i as int));
                assert(split_chars(tail_i, sep) =~= seq![Seq::<char>::empty()] + split_chars(
                    tail_i1,
                    sep,
                ));
                assert(merge_head(s@.subrange(start as int, i as int), split_chars(tail_i, sep))
                    =~= seq![piece@] + merge_head(s@.subrange(i + 1, i + 1), split_chars(tail_i1, sep)));
            }
            let ghost prev = out.deep_view();
            out.push(piece);
            proof {
                assert(out.deep_view() =~= prev + seq![s@.subrange(start as int, i as int)]);
            }
            start = i + 1;
        } else {
            proof {
                let rest = split_chars(tail_i1, sep);
                assert(split_chars(tail_i, sep) =~= seq![seq![s@[i as int]] + rest[0]]
                    + rest.drop_first());
                assert(s@.subrange(start as int, i as int) + seq![s@[i as int]] =~= s@.subrange(
                    start as int,
                    i + 1,
                ));
                assert(s@.subrange(start as int, i as int) + (seq![s@[i as int]] + rest[0])
                    =~= s@.subrange(start as int, i + 1) + rest[0]);
                assert(merge_head(s@.subrange(start as int, i as int), split_chars(tail_i, sep))
                    =~~= merge_head(s@.subrange(start as int, i + 1), rest));
            }
        }
        i = i + 1;
    }
    let last = s.substring_char(start, n).to_owned();
    proof {
        assert(s@.subrange(n as int, n as int) =~= Seq::<char>::empty());
        assert(split_chars(Seq::<char>::empty(), sep) =~= seq![Seq::<char>::empty()]);
        assert(merge_head(s@.subrange(start as int, n as int), seq![Seq::<char>::empty()])
            =~= seq![s@.subrange(start as int, n as int)]);
        assert(last@ =~= s@.subrange(start as int, n as int));
    }
    let ghost prev = out.deep_view();
    out.push(last);
    proof {
        assert(out.deep_view() =~= prev + seq![s@.subrange(start as int, n as int)]);
    }
    out
}

/// What parsing a token list yields: the fragments in order, or the first
/// token's error.
pub open spec fn frags_parse(tokens: Seq<Seq<char>>) -> Result<Seq<FragModel>, PathErrModel>
    decreases tokens.len(),
{
    if tokens.len() == 0 {
        Result::Ok(Seq::empty())
    } else {
        match frag_parse(tokens[0]) {
            Result::Err(e) => Result::Err(e),
            Result::Ok(f) => match frags_parse(tokens.drop_first()) {
                Result::Err(e) => Result::Err(e),
                Result::Ok(fs) => Result::Ok(seq![f] + fs),
            },
        }
    }
}

/// Parses every token of `tokens`, short-circuiting on the first error.
#[verifier::loop_isolation(false)]
fn parse_fragments(tokens: &Vec<String>) -> (r: Result<Vec<ArgPathFragment>, ParsePathError>)
    ensures
        match r {
            Result::Ok(v) => frags_parse(tokens.deep_view()) == Result::<
                Seq<FragModel>,
                PathErrModel,
            >::Ok(models(v@)),
            Result::Err(e) => frags_parse(tokens.deep_view()) == Result::<
                Seq<FragModel>,
                PathErrModel,
            >::Err(e@),
        },
{
    let ghost toks = tokens.deep_view();
    let mut out: Vec<ArgPathFragment> = Vec::new();
    let mut i: usize = 0;
    proof {
        assert(toks.skip(0) =~= toks);
        assert(models(out@) =~= Seq::<FragModel>::empty());
    }
    while i < tokens.len()
        invariant
            0 <= i <= toks.len(),
            frags_parse(toks) == match frags_parse(toks.skip(i as int)) {
                Result::<Seq<FragModel>, PathErrModel>::Ok(rest) => Result::<
                    Seq<FragModel>,
                    PathErrModel,
                >::Ok(models(out@) + rest),
                Result::<Seq<FragModel>, PathErrModel>::Err(e) => Result::<
                    Seq<FragModel>,
                    PathErrModel,
                >::Err(e),
            },
        decreases toks.len() - i,
    {
        proof {
            assert(toks.skip(i as int).drop_first() =~= toks.skip(i + 1));
            assert(toks.skip(i as int)[0] == toks[i as int]);
            assert(tokens@[i as int]@ == toks[i as int]);
        }
        match ArgPathFragment::parse(tokens[i].as_str()) {
            Result::Ok(f) => {
                let ghost prevm = models(out@);
                let ghost fm = f@;
                out.push(f);
                proof {
                    assert(models(out@) =~= prevm.push(fm));
                    match frags_parse(toks.skip(i + 1)) {
                        Result::Ok(rest) => {
                            assert(prevm + (seq![fm] + rest) =~= prevm.push(fm) + rest);
                        },
                        Result::Err(_) => {},
                    }
                }
            },
            Result::Err(e) => {
                return Result::Err(e);
            },
        }
        i = i + 1;
    }
    proof {
        assert(toks.skip(toks.len() as int) =~= Seq::<Seq<char>>::empty());
        assert(models(out@) + Seq::<FragModel>::empty() =~= models(out@));
    }
    Result::Ok(out)
}

/// An ordered sequence of fragments, together with the string it came from.
#[derive(Debug, Clone)]
pub struct ArgPath {
    pub value: String,
    pub fragments: Vec<ArgPathFragment>,
}

impl View for ArgPath {
    type V = PathModel;

    open spec fn view(&self) -> PathModel {
        PathModel { value: self.value@, fragments: models(self.fragments@) }
    }
}

/// What parsing a raw query string yields: the string split on `/`, each
/// token a fragment; an empty string is rejected.
pub open spec fn query_parse(s: Seq<char>) -> Result<PathModel, PathErrModel> {
    if s.len() == 0 {
        Result::Err(PathErrModel::Empty)
    } else {
        match frags_parse(split_chars(s, '/')) {
            Result::Ok(fs) => Result::Ok(PathModel { value: s, fragments: fs }),
            Result::Err(e) => Result::Err(e),
        }
    }
}

/// The final path component: everything after the last `/`.
pub open spec fn file_name_of(p: Seq<char>) -> Seq<char> {
    split_chars(p, '/').last()
}

/// The tokens of a file name: its dot-segments with the final one (the
/// extension) discarded; a name that is nothing but an extension has no
/// tokens at all.
pub open spec fn file_tokens(name: Seq<char>) -> Seq<Seq<char>> {
    let kept = split_chars(name, '.').drop_last();
    if kept.len() == 1 && kept[0].len() == 0 {
        Seq::empty()
    } else {
        kept
    }
}

/// What parsing a file path yields: fragments of the final component's
/// dot-segments, extension discarded.
pub open spec fn path_parse(p: Seq<char>) -> Result<PathModel, PathErrModel> {
    let name = file_name_of(p);
    match frags_parse(file_tokens(name)) {
        Result::Ok(fs) => Result::Ok(PathModel { value: name, fragments: fs }),
        Result::Err(e) => Result::Err(e),
    }
}

impl ArgPath {
    /// Parses a raw query string: split on `/`, every token a fragment.
    pub fn parse(s: &str) -> (r: Result<ArgPath, ParsePathError>)
        ensures
            match r {
                Result::Ok(p) => query_parse(s@) == Result::<PathModel, PathErrModel>::Ok(p@),
                Result::Err(e) => query_parse(s@) == Result::<PathModel, PathErrModel>::Err(e@),
            },
    {
        if s.is_empty() {
            return Result::Err(ParsePathError::Empty);
        }
        let tokens = split_str(s, '/');
        match parse_fragments(&tokens) {
            Result::Ok(fragments) => {
                let p = ArgPath { value: s.to_owned(), fragments };
                proof {
                    assert(p@ =~= query_parse(s@)->Ok_0);
                }
                Result::Ok(p)
            },
            Result::Err(e) => Result::Err(e),
        }
    }

    /// Parses a file path: the final component's dot-segments, with the
    /// extension (the final segment) discarded, become the fragments. A name
    /// that is only an extension yields a path with no fragments at all.
    pub fn parse_path(path: &str) -> (r: Result<ArgPath, ParsePathError>)
        ensures
            match r {
                Result::Ok(p) => path_parse(path@) == Result::<PathModel, PathErrModel>::Ok(p@),
                Result::Err(e) => path_parse(path@) == Result::<PathModel, PathErrModel>::Err(e@),
            },
    {
        let components = split_str(path, '/');
        proof {
            lemma_split_chars_len(path@, '/');
            assert(components.deep_view().last() == file_name_of(path@));
        }
        let file_name = &components[components.len() - 1];
        let mut parts = split_str(file_name.as_str(), '.');
        proof {
            lemma_split_chars_len(file_name@, '.');
            assert(parts.deep_view().drop_last() =~= split_chars(file_name@, '.').drop_last());
        }
        parts.pop();
        proof {
            assert(parts.deep_view() =~= split_chars(file_name@, '.').drop_last());
        }
        let no_tokens = parts.len() == 1 && parts[0].as_str().is_empty();
        proof {
            if no_tokens {
                assert(file_tokens(file_name@) =~= Seq::<Seq<char>>::empty());
            } else {
                assert(file_tokens(file_name@) =~= parts.deep_view());
            }
        }
        if no_tokens {
            let p = ArgPath { value: file_name.clone(), fragments: Vec::new() };
            proof {
                assert(frags_parse(Seq::<Seq<char>>::empty()) == Result::<
                    Seq<FragModel>,
                    PathErrModel,
                >::Ok(Seq::<FragModel>::empty()));
                assert(models(p.fragments@) =~= Seq::<FragModel>::empty());
                assert(p@ =~= path_parse(path@)->Ok_0);
            }
            return Result::Ok(p);
        }
        match parse_fragments(&parts) {
            Result::Ok(fragments) => {
                let p = ArgPath { value: file_name.clone(), fragments };
                proof {
                    assert(p@ =~= path_parse(path@)->Ok_0);
                }
                Result::Ok(p)
            },
            Result::Err(e) => Result::Err(e),
        }
    }
}

impl core::str::FromStr for ArgPath {
    type Err = ParsePathError;

    fn from_str(s: &str) -> Result<ArgPath, ParsePathError> {
        ArgPath::parse(s)
    }
}

/// First fragment with the given prefix, in sequence order.
pub open spec fn find_fragment(frags: Seq<FragModel>, p: Seq<char>) -> Option<FragModel>
    decreases frags.len(),
{
    if frags.len() == 0 {
        Option::None
    } else if frags[0].prefix == p {
        Option::Some(frags[0])
    } else {
        find_fragment(frags.drop_first(), p)
    }
}

/// The index of the first fragment with the given prefix, where both the
/// fragment and its index exist.
pub open spec fn find_index(frags: Seq<FragModel>, p: Seq<char>) -> Option<usize> {
    match find_fragment(frags, p) {
        Option::Some(f) => f.index,
        Option::None => Option::None,
    }
}

/// The first fragment of `a` whose position either has no counterpart in
/// `b` or differs from `b`'s fragment there; nothing where `a` is a
/// positional prefix of `b`.
pub open spec fn first_divergence(a: Seq<FragModel>, b: Seq<FragModel>) -> Option<FragModel>
    decreases a.len(),
{
    if a.len() == 0 {
        Option::None
    } else if b.len() == 0 {
        Option::Some(a[0])
    } else if a[0] != b[0] {
        Option::Some(a[0])
    } else {
        first_divergence(a.drop_first(), b.drop_first())
    }
}

impl ArgPath {
    /// First fragment whose prefix equals `prefix`, case-sensitively.
    #[verifier::loop_isolation(false)]
    pub fn fragment(&self, prefix: &str) -> (r: Option<&ArgPathFragment>)
        ensures
            match r {
                Option::Some(f) => find_fragment(self@.fragments, prefix@) == Option::Some(f@),
                Option::None => find_fragment(self@.fragments, prefix@) is None,
            },
    {
        let ghost frags = self@.fragments;
        let p = prefix.to_owned();
        let mut i: usize = 0;
        proof {
            assert(frags.skip(0) =~= frags);
        }
        while i < self.fragments.len()
            invariant
                0 <= i <= frags.len(),
                find_fragment(frags, prefix@) == find_fragment(frags.skip(i as int), prefix@),
                p@ == prefix@,
            decreases frags.len() - i,
        {
            proof {
                assert(frags.skip(i as int).drop_first() =~= frags.skip(i + 1));
                assert(frags.skip(i as int)[0] == frags[i as int]);
            }
            if self.fragments[i].prefix == p {
                return Option::Some(&self.fragments[i]);
            }
            i = i + 1;
        }
        proof {
            assert(frags.skip(frags.len() as int) =~= Seq::<FragModel>::empty());
        }
        Option::None
    }

    /// The index of the first fragment with the given prefix, where both
    /// exist.
    pub fn fragment_index(&self, prefix: &str) -> (r: Option<usize>)
        ensures
            r == find_index(self@.fragments, prefix@),
    {
        match self.fragment(prefix) {
            Option::Some(f) => f.index,
            Option::None => Option::None,
        }
    }

    /// The first of this path's fragments that disagrees with `other` at its
    /// position; nothing where this path is a positional prefix of `other`.
    #[verifier::loop_isolation(false)]
    pub fn disjoint<'a>(&'a self, other: &ArgPath) -> (r: Option<&'a ArgPathFragment>)
        ensures
            match r {
                Option::Some(f) => first_divergence(self@.fragments, other@.fragments)
                    == Option::Some(f@),
                Option::None => first_divergence(self@.fragments, other@.fragments) is None,
            },
    {
        let ghost a = self@.fragments;
        let ghost b = other@.fragments;
        let mut i: usize = 0;
        proof {
            assert(a.skip(0) =~= a);
            assert(b.skip(0) =~= b);
        }
        while i < self.fragments.len()
            invariant
                0 <= i <= a.len(),
                i <= b.len() || i == a.len(),
                first_divergence(a, b) == first_divergence(a.skip(i as int), b.skip(i as int)),
            decreases a.len() - i,
        {
            proof {
                assert(a.skip(i as int)[0] == a[i as int]);
                assert(a.skip(i as int).drop_first() =~= a.skip(i + 1));
            }
            if i >= other.fragments.len() {
                proof {
                    assert(b.skip(i as int).len() == 0);
                }
                return Option::Some(&self.fragments[i]);
            }
            proof {
                assert(b.skip(i as int)[0] == b[i as int]);
                assert(b.skip(i as int).drop_first() =~= b.skip(i + 1));
            }
            if !(self.fragments[i] == other.fragments[i]) {
                return Option::Some(&self.fragments[i]);
            }
            i = i + 1;
        }
        proof {
            assert(a.skip(a.len() as int) =~= Seq::<FragModel>::empty());
        }
        Option::None
    }
}

/// A candidate file's kind, read off its fragments.
#[derive(Debug, PartialEq, Eq, Structural)]
pub enum FileType {
    Input,
    Test,
}

/// The code point of `c` with an ASCII capital letter folded to lower case.
pub open spec fn lower_code(c: char) -> int {
    if 'A' <= c && c <= 'Z' {
        c as int + 32
    } else {
        c as int
    }
}

/// Character equality up to ASCII case.
pub open spec fn ascii_eq_char(a: char, b: char) -> bool {
    lower_code(a) == lower_code(b)
}

/// String equality up to ASCII case.
pub open spec fn ascii_ieq(a: Seq<char>, b: Seq<char>) -> bool {
    a.len() == b.len() && forall|i: int| 0 <= i < a.len() ==> ascii_eq_char(a[i], b[i])
}

fn char_ieq(a: char, b: char) -> (r: bool)
    ensures
        r == ascii_eq_char(a, b),
{
    let x = a as u32;
    let y = b as u32;
    let xl: u32 = if x >= 65 && x <= 90 {
        x + 32
    } else {
        x
    };
    let yl: u32 = if y >= 65 && y <= 90 {
        y + 32
    } else {
        y
    };
    xl == yl
}

/// Compares two strings up to ASCII case.
#[verifier::loop_isolation(false)]
pub fn str_ieq(a: &str, b: &str) -> (r: bool)
    ensures
        r == ascii_ieq(a@, b@),
{
    let n = a.unicode_len();
    if n != b.unicode_len() {
        return false;
    }
    let mut i: usize = 0;
    while i < n
        invariant
            0 <= i <= n,
            forall|k: int| 0 <= k < i ==> ascii_eq_char(a@[k], b@[k]),
        decreases n - i,
    {
        if !char_ieq(a.get_char(i), b.get_char(i)) {
            return false;
        }
        i = i + 1;
    }
    true
}

/// The classification of a fragment sequence: the first fragment whose
/// prefix reads `input` or `test`, case-insensitively, decides the kind.
pub open spec fn classify(frags: Seq<FragModel>) -> Option<FileType>
    decreases frags.len(),
{
    if frags.len() == 0 {
        Option::None
    } else if ascii_ieq(frags[0].prefix, "input"@) {
        Option::Some(FileType::Input)
    } else if ascii_ieq(frags[0].prefix, "test"@) {
        Option::Some(FileType::Test)
    } else {
        classify(frags.drop_first())
    }
}

/// Scans the fragments in order for an `input` or `test` marker, case
/// insensitively; the first hit decides, and a path with neither stays
/// unclassified.
#[verifier::loop_isolation(false)]
pub fn get_file_type(path: &ArgPath) -> (r: Option<FileType>)
    ensures
        r == classify(path@.fragments),
{
    let ghost frags = path@.fragments;
    let mut i: usize = 0;
    proof {
        assert(frags.skip(0) =~= frags);
    }
    while i < path.fragments.len()
        invariant
            0 <= i <= frags.len(),
            classify(frags) == classify(frags.skip(i as int)),
        decreases frags.len() - i,
    {
        proof {
            assert(frags.skip(i as int)[0] == frags[i as int]);
            assert(frags.skip(i as int).drop_first() =~= frags.skip(i + 1));
        }
        if str_ieq(path.fragments[i].prefix.as_str(), "input") {
            return Option::Some(FileType::Input);
        }
        if str_ieq(path.fragments[i].prefix.as_str(), "test") {
            return Option::Some(FileType::Test);
        }
        i = i + 1;
    }
    proof {
        assert(frags.skip(frags.len() as int) =~= Seq::<FragModel>::empty());
    }
    Option::None
}

/// A valid token without digits parses to itself as prefix, with no index.
pub proof fn lemma_parse_no_digits(t: Seq<char>)
    requires
        t.len() > 0,
        forall|i: int| 0 <= i < t.len() ==> !is_digit_char(t[i]),
    ensures
        frag_parse(t) == Result::<FragModel, PathErrModel>::Ok(
            FragModel { prefix: t, index: Option::None },
        ),
{
    lemma_first_digit_pos_is(t, t.len() as int);
}

/// A token of letters followed by digits parses to that letter run as
/// prefix and the digit run's value as index, and appending the index's
/// decimal rendering to the prefix rebuilds the token exactly. The digit
/// run must carry no leading zero and fit in `usize`, else either the
/// rendering or the parse differs.
pub proof fn lemma_parse_letters_digits(letters: Seq<char>, digs: Seq<char>)
    requires
        forall|i: int| 0 <= i < letters.len() ==> !is_digit_char(letters[i]),
        digs.len() > 0,
        crate::digits::all_digits(digs),
        crate::digits::dec_val(digs) <= usize::MAX,
        digs[0] != '0' || digs.len() == 1,
    ensures
        frag_parse(letters + digs) == Result::<FragModel, PathErrModel>::Ok(
            FragModel {
                prefix: letters,
                index: Option::Some(crate::digits::dec_val(digs) as usize),
            },
        ),
        letters + crate::digits::dec_str(crate::digits::dec_val(digs)) == letters + digs,
{
    let t = letters + digs;
    assert(forall|k: int| 0 <= k < letters.len() ==> t[k] == letters[k]);
    assert(is_digit_char(t[letters.len() as int]));
    lemma_first_digit_pos_is(t, letters.len() as int);
    assert(t.subrange(letters.len() as int, t.len() as int) =~= digs);
    assert(t.subrange(0, letters.len() as int) =~= letters);
    assert(usize_str_ok(digs) && usize_str_val(digs) == crate::digits::dec_val(digs)) by {
        assert(digs[0] != '+');
    }
    assert(frag_parse(t)->Ok_0 =~= FragModel {
        prefix: letters,
        index: Option::Some(crate::digits::dec_val(digs) as usize),
    });
    crate::digits::lemma_dec_val_str(digs);
    assert(letters + crate::digits::dec_str(crate::digits::dec_val(digs)) =~= letters + digs);
}

/// Parsing a file name strips exactly one trailing dot-segment: outside the
/// degenerate single-empty-token case, the tokens are the dot-segments with
/// only the last one discarded, however many dots the name holds.
pub proof fn lemma_strip_one_extension(name: Seq<char>)
    requires
        split_chars(name, '.').drop_last().len() != 1 || split_chars(
            name,
            '.',
        ).drop_last()[0].len() != 0,
    ensures
        file_tokens(name) == split_chars(name, '.').drop_last(),
{
}

/// Divergence is reflexive-null: a path never diverges from itself.
pub proof fn lemma_divergence_self(frags: Seq<FragModel>)
    ensures
        first_divergence(frags, frags) is None,
    decreases frags.len(),
{
    if frags.len() > 0 {
        lemma_divergence_self(frags.drop_first());
    }
}

/// An empty query string is rejected as empty, before any candidate or
/// directory is so much as looked at.
pub proof fn lemma_empty_query(s: Seq<char>)
    requires
        s.len() == 0,
    ensures
        query_parse(s) == Result::<PathModel, PathErrModel>::Err(PathErrModel::Empty),
{
}

/// A path with no fragments at all classifies as no kind, and resolution
/// skips such a candidate rather than fail on it.
pub proof fn lemma_no_fragments_skipped(
    is_test: bool,
    qfrags: Seq<FragModel>,
    files: Seq<Seq<char>>,
)
    requires
        files.len() == 1,
        path_parse(files[0]) matches Result::<PathModel, PathErrModel>::Ok(p)
            && p.fragments.len() == 0,
    ensures
        resolve_spec(is_test, qfrags, files) == Result::<
            Seq<(PathModel, Seq<char>)>,
            PathErrModel,
        >::Ok(Seq::<(PathModel, Seq<char>)>::empty()),
{
    assert(files.drop_first() =~= Seq::<Seq<char>>::empty());
    assert(resolve_spec(is_test, qfrags, files.drop_first()) == Result::<
        Seq<(PathModel, Seq<char>)>,
        PathErrModel,
    >::Ok(Seq::<(PathModel, Seq<char>)>::empty()));
    assert(classify(path_parse(files[0])->Ok_0.fragments) is None);
}

/// The arguments shared by both command verbs: the query path.
#[derive(Debug)]
pub struct CommonArgs {
    pub path: ArgPath,
}

/// Errors of command parsing and resolution.
#[derive(Debug)]
pub enum Error {
    /// No command verb was given.
    MissingCommand,
    /// A verb was given but no query string; carries the verb.
    MissingPath(String),
    /// The verb is neither `solve` nor `test`; carries it.
    InvalidCommand(String),
    /// The query or a candidate file name failed to parse.
    InvalidPath(ParsePathError),
    /// An accepted file does not itself encode a day and a part; carries
    /// its path.
    ResolvePath(String),
}

/// The two command verbs, each carrying the query.
#[derive(Debug)]
pub enum Command {
    Solve(CommonArgs),
    Test(CommonArgs),
}

impl Command {
    /// The query path this command carries.
    pub open spec fn query(&self) -> PathModel {
        match self {
            Command::Solve(a) => a.path@,
            Command::Test(a) => a.path@,
        }
    }

    /// Whether this is the `test` verb.
    pub open spec fn is_test_cmd(&self) -> bool {
        self matches Command::Test(_)
    }

    /// Parses the command-line tokens: a case-insensitive verb, `solve` or
    /// `test`, then the query string, which must parse as a path.
    pub fn parse(args: Vec<String>) -> (r: Result<Command, Error>)
        ensures
            ({
                let a = args.deep_view();
                match r {
                    Result::Ok(c) => a.len() >= 2 && query_parse(a[1]) == Result::<
                        PathModel,
                        PathErrModel,
                    >::Ok(c.query()) && (c.is_test_cmd() ==> ascii_ieq(a[0], "test"@)) && (
                    !c.is_test_cmd() ==> ascii_ieq(a[0], "solve"@)),
                    Result::Err(Error::MissingCommand) => a.len() == 0,
                    Result::Err(Error::MissingPath(v)) => a.len() == 1 && (v@ == "solve"@
                        && ascii_ieq(a[0], "solve"@) || v@ == "test"@ && ascii_ieq(a[0], "test"@)),
                    Result::Err(Error::InvalidCommand(v)) => a.len() >= 1 && !ascii_ieq(
                        a[0],
                        "solve"@,
                    ) && !ascii_ieq(a[0], "test"@) && v@ == a[0],
                    Result::Err(Error::InvalidPath(e)) => a.len() >= 2 && (ascii_ieq(a[0], "solve"@)
                        || ascii_ieq(a[0], "test"@)) && query_parse(a[1]) == Result::<
                        PathModel,
                        PathErrModel,
                    >::Err(e@),
                    Result::Err(_) => false,
                }
            }),
    {
        if args.len() == 0 {
            return Result::Err(Error::MissingCommand);
        }
        let is_solve = str_ieq(args[0].as_str(), "solve");
        let is_test = str_ieq(args[0].as_str(), "test");
        proof {
            assert(args@[0]@ == args.deep_view()[0]);
            reveal_strlit("solve");
            reveal_strlit("test");
        }
        if !is_solve && !is_test {
            return Result::Err(Error::InvalidCommand(args[0].clone()));
        }
        if args.len() == 1 {
            let verb = if is_solve {
                String::from_str("solve")
            } else {
                String::from_str("test")
            };
            return Result::Err(Error::MissingPath(verb));
        }
        proof {
            assert(args@[1]@ == args.deep_view()[1]);
        }
        match ArgPath::parse(args[1].as_str()) {
            Result::Ok(path) => {
                let common = CommonArgs { path };
                if is_test {
                    Result::Ok(Command::Test(common))
                } else {
                    Result::Ok(Command::Solve(common))
                }
            },
            Result::Err(e) => Result::Err(Error::InvalidPath(e)),
        }
    }

    /// The shared arguments, whichever verb carries them.
    pub fn args(&self) -> (r: &CommonArgs)
        ensures
            r.path@ == self.query(),
    {
        match self {
            Command::Solve(args) => args,
            Command::Test(args) => args,
        }
    }
}

/// Whether one classified candidate is accepted for the query: no
/// divergence accepts outright; a `part` divergence applies the kind gate
/// and then the query's own part constraint; an `input` or `test`
/// divergence must agree with the verb; any other divergence rejects.
pub open spec fn accepts_file(
    is_test: bool,
    qfrags: Seq<FragModel>,
    ffrags: Seq<FragModel>,
    ft: FileType,
) -> bool {
    match first_divergence(ffrags, qfrags) {
        Option::None => true,
        Option::Some(d) => {
            if d.prefix == "part"@ {
                if ft == FileType::Test && !is_test || ft == FileType::Input && is_test {
                    false
                } else {
                    match find_index(qfrags, "part"@) {
                        Option::Some(qi) => d.index == Option::Some(qi),
                        Option::None => true,
                    }
                }
            } else if d.prefix == "input"@ {
                !is_test
            } else if d.prefix == "test"@ {
                is_test
            } else {
                false
            }
        },
    }
}

/// The `(file spec, path)` pairs resolution yields over `files` in listing
/// order, or the first candidate's parse error; unclassifiable candidates
/// are skipped.
pub open spec fn resolve_spec(
    is_test: bool,
    qfrags: Seq<FragModel>,
    files: Seq<Seq<char>>,
) -> Result<Seq<(PathModel, Seq<char>)>, PathErrModel>
    decreases files.len(),
{
    if files.len() == 0 {
        Result::Ok(Seq::empty())
    } else {
        match path_parse(files[0]) {
            Result::Err(e) => Result::Err(e),
            Result::Ok(fp) => match resolve_spec(is_test, qfrags, files.drop_first()) {
                Result::Err(e) => Result::Err(e),
                Result::Ok(rest) => match classify(fp.fragments) {
                    Option::None => Result::Ok(rest),
                    Option::Some(ft) => if accepts_file(is_test, qfrags, fp.fragments, ft) {
                        Result::Ok(seq![(fp, files[0])] + rest)
                    } else {
                        Result::Ok(rest)
                    },
                },
            },
        }
    }
}

/// The models of resolved `(file spec, path)` pairs.
pub open spec fn pairs_model(v: Seq<(ArgPath, String)>) -> Seq<(PathModel, Seq<char>)> {
    v.map_values(|p: (ArgPath, String)| (p.0@, p.1@))
}

impl Command {
    /// Selects, among the candidate file paths, the ones that satisfy this
    /// command's query, pairing each with its parsed spec. The first
    /// candidate that fails to parse aborts the whole resolution.
    #[verifier::loop_isolation(false)]
    #[verifier::rlimit(60)]
    pub fn resolve_input_files(&self, files: &Vec<String>) -> (r: Result<
        Vec<(ArgPath, String)>,
        Error,
    >)
        ensures
            match r {
                Result::Ok(v) => resolve_spec(self.is_test_cmd(), self.query().fragments, files.deep_view())
                    == Result::<Seq<(PathModel, Seq<char>)>, PathErrModel>::Ok(pairs_model(v@)),
                Result::Err(Error::InvalidPath(e)) => resolve_spec(
                    self.is_test_cmd(),
                    self.query().fragments,
                    files.deep_view(),
                ) == Result::<Seq<(PathModel, Seq<char>)>, PathErrModel>::Err(e@),
                Result::Err(_) => false,
            },
    {
        let ghost qf = self.query().fragments;
        let ghost ist = self.is_test_cmd();
        let ghost fdv = files.deep_view();
        let args = self.args();
        let arg_fragment = args.path.fragment_index("part");
        let is_test = matches!(self, Command::Test(_));
        let part_str = String::from_str("part");
        let input_str = String::from_str("input");
        let test_str = String::from_str("test");
        let mut input_files: Vec<(ArgPath, String)> = Vec::new();
        let mut i: usize = 0;
        proof {
            assert(fdv.skip(0) =~= fdv);
            assert(pairs_model(input_files@) =~= Seq::<(PathModel, Seq<char>)>::empty());
        }
        while i < files.len()
            invariant
                0 <= i <= fdv.len(),
                arg_fragment == find_index(qf, "part"@),
                is_test == ist,
                part_str@ == "part"@,
                input_str@ == "input"@,
                test_str@ == "test"@,
                resolve_spec(ist, qf, fdv) == match resolve_spec(ist, qf, fdv.skip(i as int)) {
                    Result::<Seq<(PathModel, Seq<char>)>, PathErrModel>::Ok(rest) => Result::<
                        Seq<(PathModel, Seq<char>)>,
                        PathErrModel,
                    >::Ok(pairs_model(input_files@) + rest),
                    Result::<Seq<(PathModel, Seq<char>)>, PathErrModel>::Err(e) => Result::<
                        Seq<(PathModel, Seq<char>)>,
                        PathErrModel,
                    >::Err(e),
                },
            decreases fdv.len() - i,
        {
            proof {
                assert(fdv.skip(i as int)[0] == fdv[i as int]);
                assert(fdv.skip(i as int).drop_first() =~= fdv.skip(i + 1));
                assert(files@[i as int]@ == fdv[i as int]);
            }
            let file = &files[i];
            let file_path = match ArgPath::parse_path(file.as_str()) {
                Result::Ok(p) => p,
                Result::Err(e) => {
                    return Result::Err(Error::InvalidPath(e));
                },
            };
            let mut accept = false;
            match get_file_type(&file_path) {
                Option::Some(file_type) => {
                    match file_path.disjoint(&args.path) {
                        Option::Some(fragment) => {
                            let frag_index = fragment.index;
                            if fragment.prefix == part_str {
                                if file_type == FileType::Test && !is_test || file_type
                                    == FileType::Input && is_test {
                                    // wrong kind for the verb: rejected
                                } else {
                                    match (arg_fragment, frag_index) {
                                        (Option::Some(a), Option::Some(f)) => {
                                            if a == f {
                                                accept = true;
                                            }
                                        },
                                        (Option::None, _) => {
                                            accept = true;
                                        },
                                        _ => {},
                                    }
                                }
                            } else if fragment.prefix == input_str {
                                if !is_test {
                                    accept = true;
                                }
                            } else if fragment.prefix == test_str {
                                if is_test {
                                    accept = true;
                                }
                            }
                        },
                        Option::None => {
                            accept = true;
                        },
                    }
                    proof {
                        assert(accept == accepts_file(ist, qf, file_path@.fragments, file_type));
                    }
                },
                Option::None => {
                    // unclassifiable: skipped, not an error
                },
            }
            if accept {
                let ghost prevp = pairs_model(input_files@);
                let ghost pm = (file_path@, fdv[i as int]);
                input_files.push((file_path, file.clone()));
                proof {
                    assert(pairs_model(input_files@) =~= prevp.push(pm));
                    match resolve_spec(ist, qf, fdv.skip(i + 1)) {
                        Result::Ok(rest) => {
                            assert(prevp + (seq![pm] + rest) =~= prevp.push(pm) + rest);
                        },
                        Result::Err(_) => {},
                    }
                }
            }
            i = i + 1;
        }
        proof {
            assert(fdv.skip(fdv.len() as int) =~= Seq::<Seq<char>>::empty());
            assert(pairs_model(input_files@) + Seq::<(PathModel, Seq<char>)>::empty()
                =~= pairs_model(input_files@));
        }
        Result::Ok(input_files)
    }
}

impl ArgPath {
    /// The `day` and `part` indices an accepted file must itself encode;
    /// nothing where either is missing.
    pub fn day_part(&self) -> (r: Option<(usize, usize)>)
        ensures
            match r {
                Option::Some(dp) => find_index(self@.fragments, "day"@) == Option::Some(dp.0)
                    && find_index(self@.fragments, "part"@) == Option::Some(dp.1),
                Option::None => find_index(self@.fragments, "day"@) is None || find_index(
                    self@.fragments,
                    "part"@,
                ) is None,
            },
    {
        match (self.fragment_index("day"), self.fragment_index("part")) {
            (Option::Some(d), Option::Some(p)) => Option::Some((d, p)),
            _ => Option::None,
        }
    }
}

} // verus!

