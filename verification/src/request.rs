//! The URL of the request for the advisories of one batch of packages.
use crate::error::Error;
use crate::packagist::name_views;
use vstd::prelude::*;
use vstd::string::StrSliceExecFns;

verus! {

/// `reqwest::Url` (the `url` crate's `Url`), carried through opaque.
#[verifier::external_type_specification]
#[verifier::external_body]
pub struct ExUrl(reqwest::Url);

/// Whether `reqwest::Url::parse` accepts the text.
pub uninterp spec fn url_parses(text: Seq<char>) -> bool;

/// Whether the URL that `reqwest::Url::parse` reads from the text is
/// cannot-be-a-base (such as `mailto:x`), so that its path has no segments.
pub uninterp spec fn url_cannot_be_a_base(text: Seq<char>) -> bool;

/// The text of the URL that `reqwest::Url::parse` reads from `base`, after
/// its path is extended by `segments` and then its query is given the pairs
/// `pairs`, in order (percent-encoded as the `url` crate encodes them).
pub uninterp spec fn url_serialized(
    base: Seq<char>,
    segments: Seq<Seq<char>>,
    pairs: Seq<(Seq<char>, Seq<char>)>,
) -> Seq<char>;

/// The characters of the query pairs, with one separator each.
pub open spec fn pairs_chars(pairs: Seq<(Seq<char>, Seq<char>)>) -> int
    decreases pairs.len(),
{
    if pairs.len() == 0 {
        0
    } else {
        pairs_chars(pairs.drop_last()) + pairs.last().0.len() + pairs.last().1.len() + 1
    }
}

/// The most characters that the base and the query pairs of a request URL
/// may hold together. The `url` crate keeps the positions in a URL as `u32`
/// and panics on a URL of 4 GiB or more; below this bound the URL, each
/// character percent-encoded, stays far from that.
pub const URL_CHARS_LIMIT: usize = 0x0F00_0000;

/// Calls `reqwest::Url::parse`; the error is handed on as its text.
#[verifier::external_body]
fn url_parse(text: &str) -> (r: Result<reqwest::Url, String>)
    ensures
        r is Ok <==> url_parses(text@),
{
    match reqwest::Url::parse(text) {
        Ok(u) => Ok(u),
        Err(e) => Err(e.to_string()),
    }
}

/// A URL parsed from a text, with the path segments and the query pairs
/// added to it since. Only [`RequestUrl::parse`] builds one.
pub struct RequestUrl {
    url: reqwest::Url,
    base: Ghost<Seq<char>>,
    segments: Ghost<Seq<Seq<char>>>,
    pairs: Ghost<Seq<(Seq<char>, Seq<char>)>>,
}

impl View for RequestUrl {
    type V = (Seq<char>, Seq<Seq<char>>, Seq<(Seq<char>, Seq<char>)>);

    /// The text it was parsed from, the segments and the pairs added.
    closed spec fn view(&self) -> (Seq<char>, Seq<Seq<char>>, Seq<(Seq<char>, Seq<char>)>) {
        (self.base@, self.segments@, self.pairs@)
    }
}

impl RequestUrl {
    /// Calls `path_segments_mut` and, where the URL can be a base, `extend`
    /// with the one segment; the result says whether it could. The URL was
    /// parsed from the text that `self@.0` holds, and adding to its path or
    /// query leaves it as able to be a base as it was.
    #[verifier::external_body]
    fn extend_path_raw(&mut self, segment: &str) -> (ok: bool)
        requires
            old(self)@.0.len() <= URL_CHARS_LIMIT,
        ensures
            final(self)@ == old(self)@,
            ok == !url_cannot_be_a_base(old(self)@.0),
    {
        match self.url.path_segments_mut() {
            Ok(mut path) => {
                path.extend([segment]);
                true
            },
            Err(()) => false,
        }
    }

    /// Calls `query_pairs_mut` and `append_pair` with the pair.
    #[verifier::external_body]
    fn append_pair_raw(&mut self, name: &str, value: &str)
        requires
            old(self)@.0.len() + pairs_chars(old(self)@.2) + name@.len() + value@.len() + 1
                <= URL_CHARS_LIMIT,
        ensures
            final(self)@ == old(self)@,
    {
        self.url.query_pairs_mut().append_pair(name, value);
    }

    /// Calls `to_string` on the URL, which was parsed from `self@.0`, its
    /// path extended by `self@.1`, then its query given the pairs `self@.2`.
    #[verifier::external_body]
    fn text_raw(&self) -> (r: String)
        ensures
            r@ == url_serialized(self@.0, self@.1, self@.2),
    {
        self.url.to_string()
    }

    /// Parses `text` as a URL, with no segment or pair added yet.
    fn parse(text: &str) -> (r: Result<RequestUrl, String>)
        ensures
            r is Ok <==> url_parses(text@),
            r matches Ok(u) ==> u@ == (text@, Seq::<Seq<char>>::empty(), Seq::<(Seq<char>, Seq<char>)>::empty()),
    {
        match url_parse(text) {
            Ok(url) => Ok(RequestUrl { url, base: Ghost(text@), segments: Ghost(Seq::empty()), pairs: Ghost(Seq::empty()) }),
            Err(e) => Err(e),
        }
    }

    /// Adds a segment to the path, before any query pair; false, with
    /// nothing added, where the URL cannot be a base.
    fn push_segment(&mut self, segment: &str) -> (ok: bool)
        requires
            old(self)@.2.len() == 0,
            old(self)@.0.len() <= URL_CHARS_LIMIT,
        ensures
            ok == !url_cannot_be_a_base(old(self)@.0),
            final(self)@.0 == old(self)@.0,
            final(self)@.2 == old(self)@.2,
            final(self)@.1 == if ok {
                old(self)@.1.push(segment@)
            } else {
                old(self)@.1
            },
    {
        let ok = self.extend_path_raw(segment);
        if ok {
            self.segments = Ghost(self.segments@.push(segment@));
        }
        ok
    }

    /// Adds a query pair.
    fn append_pair(&mut self, name: &str, value: &str)
        requires
            old(self)@.0.len() + pairs_chars(old(self)@.2) + name@.len() + value@.len() + 1
                <= URL_CHARS_LIMIT,
        ensures
            final(self)@ == (old(self)@.0, old(self)@.1, old(self)@.2.push((name@, value@))),
    {
        self.append_pair_raw(name, value);
        self.pairs = Ghost(self.pairs@.push((name@, value@)));
    }
}

/// `s` without its trailing `/`s.
pub open spec fn trim_trailing_slashes(s: Seq<char>) -> Seq<char>
    decreases s.len(),
{
    if s.len() > 0 && s.last() == '/' {
        trim_trailing_slashes(s.drop_last())
    } else {
        s
    }
}

/// `s` without its trailing `/`s, as `str::trim_end_matches('/')` gives it.
pub fn trim_slashes_end(s: &str) -> (r: &str)
    ensures
        r@ == trim_trailing_slashes(s@),
{
    let mut n = s.unicode_len();
    assert(s@.subrange(0, n as int) =~= s@);
    while n > 0 && s.get_char(n - 1) == '/'
        invariant
            n <= s@.len(),
            trim_trailing_slashes(s@) == trim_trailing_slashes(s@.subrange(0, n as int)),
        decreases n,
    {
        assert(s@.subrange(0, n as int).drop_last() =~= s@.subrange(0, n - 1));
        n = n - 1;
    }
    s.substring_char(0, n)
}

/// The query pairs of a batch: `packages[]` with each name, in order.
pub open spec fn package_pairs(names: Seq<Seq<char>>) -> Seq<(Seq<char>, Seq<char>)> {
    names.map_values(|n: Seq<char>| ("packages[]"@, n))
}

/// The path segments of the advisory API.
pub open spec fn advisory_segments() -> Seq<Seq<char>> {
    seq!["api"@, "security-advisories"@]
}

proof fn lemma_pairs_chars_prefix(pairs: Seq<(Seq<char>, Seq<char>)>, i: int)
    requires
        0 <= i <= pairs.len(),
    ensures
        0 <= pairs_chars(pairs.take(i)) <= pairs_chars(pairs),
    decreases pairs.len(),
{
    if i < pairs.len() {
        assert(pairs.drop_last().take(i) =~= pairs.take(i));
        lemma_pairs_chars_prefix(pairs.drop_last(), i);
    } else {
        assert(pairs.take(i) =~= pairs);
        lemma_pairs_chars_nonneg(pairs);
    }
}

proof fn lemma_pairs_chars_nonneg(pairs: Seq<(Seq<char>, Seq<char>)>)
    ensures
        pairs_chars(pairs) >= 0,
    decreases pairs.len(),
{
    if pairs.len() > 0 {
        lemma_pairs_chars_nonneg(pairs.drop_last());
    }
}

/// The URL that asks Packagist for the advisories of `batch`: the base
/// without trailing `/`s, the path extended by `api` and
/// `security-advisories`, one `packages[]` pair per name. A base that is no
/// URL, or one that cannot be a base, gives a client-building error.
pub fn batch_url(base_url: &str, batch: &[String]) -> (r: Result<String, Error>)
    requires
        base_url@.len() + pairs_chars(package_pairs(name_views(batch@))) <= URL_CHARS_LIMIT,
    ensures
        r is Ok <==> url_parses(trim_trailing_slashes(base_url@)) && !url_cannot_be_a_base(
            trim_trailing_slashes(base_url@),
        ),
        r matches Ok(u) ==> u@ == url_serialized(
            trim_trailing_slashes(base_url@),
            advisory_segments(),
            package_pairs(name_views(batch@)),
        ),
        r matches Err(e) ==> e is ClientBuild,
{
    let base = trim_slashes_end(base_url);
    proof {
        reveal_strlit("api");
        reveal_strlit("security-advisories");
        reveal_strlit("packages[]");
        lemma_trim_shorter(base_url@);
        lemma_pairs_chars_nonneg(package_pairs(name_views(batch@)));
    }
    let mut url = match RequestUrl::parse(base) {
        Ok(u) => u,
        Err(e) => {
            return Err(Error::ClientBuild(e));
        },
    };
    if !url.push_segment("api") {
        return Err(Error::ClientBuild("invalid base URL path".to_owned()));
    }
    let ok = url.push_segment("security-advisories");
    assert(ok);
    assert(url@.1 =~= advisory_segments());
    let ghost all = package_pairs(name_views(batch@));
    assert(all.take(0) =~= Seq::<(Seq<char>, Seq<char>)>::empty());
    for i in 0..batch.len()
        invariant
            all == package_pairs(name_views(batch@)),
            all.len() == batch@.len(),
            url@.0 == base@,
            base@.len() <= base_url@.len(),
            base_url@.len() + pairs_chars(all) <= URL_CHARS_LIMIT,
            url@.1 == advisory_segments(),
            url@.2 == all.take(i as int),
    {
        proof {
            lemma_pairs_chars_prefix(all, i + 1);
            assert(all.take(i + 1).drop_last() =~= all.take(i as int));
            assert(all[i as int] == ("packages[]"@, batch@[i as int]@));
        }
        url.append_pair("packages[]", batch[i].as_str());
        assert(url@.2 =~= all.take(i + 1));
    }
    assert(all.take(batch@.len() as int) =~= all);
    Ok(url.text_raw())
}

proof fn lemma_trim_shorter(s: Seq<char>)
    ensures
        trim_trailing_slashes(s).len() <= s.len(),
    decreases s.len(),
{
    if s.len() > 0 && s.last() == '/' {
        lemma_trim_shorter(s.drop_last());
    }
}

} // verus!
