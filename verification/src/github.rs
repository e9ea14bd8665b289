//! Pull-request identifiers and the URL splitter that produces them.
//!
//! `parse_url` rejects a plain-HTTP tracker link, strips every leading
//! occurrence of `https://github.com/`, and reads the owner, the repository
//! and the pull-request number out of the remaining slash-separated path:
//! the first, second and fourth segment (the third, `pull` or `issue`, is
//! discarded). Missing segments stay at their default, the empty string.

use vstd::prelude::*;

verus! {

/// Identifies one pull request: repository owner, repository name, and the
/// pull-request number (kept as text).
#[derive(Debug)]
pub struct PullRequestIdentifier {
    owner: String,
    repo: String,
    number: String,
}

/// Mathematical model of a pull-request identifier.
pub struct PullRequestIdentifierModel {
    pub owner: Seq<char>,
    pub repo: Seq<char>,
    pub number: Seq<char>,
}

impl View for PullRequestIdentifier {
    type V = PullRequestIdentifierModel;

    closed spec fn view(&self) -> PullRequestIdentifierModel {
        PullRequestIdentifierModel {
            owner: self.owner@,
            repo: self.repo@,
            number: self.number@,
        }
    }
}

impl Default for PullRequestIdentifier {
    /// The identifier with every part empty.
    fn default() -> (d: Self)
        ensures
            d@.owner == Seq::<char>::empty(),
            d@.repo == Seq::<char>::empty(),
            d@.number == Seq::<char>::empty(),
    {
        PullRequestIdentifier { owner: String::new(), repo: String::new(), number: String::new() }
    }
}

impl PullRequestIdentifier {
    /// The repository owner.
    pub fn owner(&self) -> (r: &str)
        ensures
            r@ == self@.owner,
    {
        self.owner.as_str()
    }

    /// The repository name.
    pub fn repo(&self) -> (r: &str)
        ensures
            r@ == self@.repo,
    {
        self.repo.as_str()
    }

    /// The pull-request number, as it stood in the URL.
    pub fn number(&self) -> (r: &str)
        ensures
            r@ == self@.number,
    {
        self.number.as_str()
    }
}

/// Description of a pull request as reported by the remote tracker.
#[derive(Debug)]
pub struct PullRequestDescription {
    pub url: String,
    pub title: String,
    pub author: String,
    pub state: String,
}

/// `s` begins with `p`.
pub open spec fn starts_with(s: Seq<char>, p: Seq<char>) -> bool {
    p.len() <= s.len() && s.take(p.len() as int) == p
}

/// `s` with every leading occurrence of `https://github.com/` removed.
pub open spec fn trim_gh(s: Seq<char>) -> Seq<char>
    decreases s.len(),
{
    if s.len() >= 19 && starts_with(s, "https://github.com/"@) {
        trim_gh(s.skip(19))
    } else {
        s
    }
}

/// `s` cut at every `/`, in order; always at least one segment, and empty
/// segments are kept, as `str::split` does.
pub open spec fn split_slash(s: Seq<char>) -> Seq<Seq<char>>
    decreases s.len(),
{
    if s.len() == 0 {
        seq![Seq::<char>::empty()]
    } else if s[0] == '/' {
        seq![Seq::<char>::empty()] + split_slash(s.skip(1))
    } else {
        let rest = split_slash(s.skip(1));
        seq![seq![s[0]] + rest[0]] + rest.skip(1)
    }
}

proof fn lemma_split_slash_len(s: Seq<char>)
    ensures
        split_slash(s).len() >= 1,
    decreases s.len(),
{
    if s.len() > 0 && s[0] != '/' {
        lemma_split_slash_len(s.skip(1));
    }
}

/// On a slash-free span `[a, b)` followed by a `/` at `b`, splitting from `a`
/// yields that span as the first segment.
proof fn lemma_split_slash_at(s: Seq<char>, a: int, b: int)
    requires
        0 <= a <= b < s.len(),
        forall|q: int| a <= q < b ==> s[q] != '/',
        s[b] == '/',
    ensures
        split_slash(s.skip(a)) == seq![s.subrange(a, b)] + split_slash(s.skip(b + 1)),
    decreases b - a,
{
    assert(s.skip(a)[0] == s[a]);
    if a == b {
        assert(s.skip(a).skip(1) =~= s.skip(b + 1));
        assert(s.subrange(a, b) =~= Seq::<char>::empty());
    } else {
        assert(s.skip(a).skip(1) =~= s.skip(a + 1));
        lemma_split_slash_at(s, a + 1, b);
        let rest = split_slash(s.skip(a + 1));
        assert(rest[0] == s.subrange(a + 1, b));
        assert(seq![s[a]] + s.subrange(a + 1, b) =~= s.subrange(a, b));
        assert(rest.skip(1) =~= split_slash(s.skip(b + 1)));
        assert(seq![seq![s[a]] + rest[0]] + rest.skip(1) =~= seq![s.subrange(a, b)] + split_slash(
            s.skip(b + 1),
        ));
    }
}

/// On a slash-free tail from `a`, splitting yields that tail as the only
/// segment.
proof fn lemma_split_slash_tail(s: Seq<char>, a: int)
    requires
        0 <= a <= s.len(),
        forall|q: int| a <= q < s.len() ==> s[q] != '/',
    ensures
        split_slash(s.skip(a)) == seq![s.subrange(a, s.len() as int)],
    decreases s.len() - a,
{
    if a == s.len() {
        assert(s.skip(a).len() == 0);
        assert(s.subrange(a, s.len() as int) =~= Seq::<char>::empty());
    } else {
        assert(s.skip(a)[0] == s[a]);
        assert(s.skip(a).skip(1) =~= s.skip(a + 1));
        lemma_split_slash_tail(s, a + 1);
        let rest = split_slash(s.skip(a + 1));
        assert(seq![s[a]] + s.subrange(a + 1, s.len() as int) =~= s.subrange(a, s.len() as int));
        assert(rest.skip(1) =~= Seq::<Seq<char>>::empty());
        assert(seq![seq![s[a]] + rest[0]] + rest.skip(1) =~= seq![s.subrange(a, s.len() as int)]);
    }
}

/// Whether `s`, read from position `i`, begins with `p`.
fn str_starts_with(s: &str, i: usize, p: &str) -> (r: bool)
    requires
        i <= s@.len(),
    ensures
        r == starts_with(s@.skip(i as int), p@),
{
    let n = s.unicode_len();
    let m = p.unicode_len();
    if m > n - i {
        return false;
    }
    let mut j: usize = 0;
    while j < m
        invariant
            n == s@.len(),
            m == p@.len(),
            i + m <= n,
            j <= m,
            forall|q: int| 0 <= q < j ==> s@.skip(i as int)[q] == p@[q],
        decreases m - j,
    {
        if s.get_char(i + j) != p.get_char(j) {
            proof {
                assert(s@.skip(i as int)[j as int] == s@[i + j]);
            }
            return false;
        }
        proof {
            assert(s@.skip(i as int)[j as int] == s@[i + j]);
        }
        j = j + 1;
    }
    proof {
        assert(s@.skip(i as int).take(m as int) =~= p@);
    }
    true
}

/// Split a pull-request URL into its identifier.
///
/// A URL on the plain-HTTP tracker host is refused. Otherwise every leading
/// `https://github.com/` is stripped and the path is cut at `/`: the first
/// segment is the owner, the second the repository, the fourth the number;
/// a missing segment leaves its part empty.
#[verifier::loop_isolation(false)]
pub fn parse_url(pr_url: &str) -> (r: Result<PullRequestIdentifier, &'static str>)
    ensures
        r is Err <==> starts_with(pr_url@, "http://github.com"@),
        (match r {
            Ok(id) => ({
                let segs = split_slash(trim_gh(pr_url@));
                &&& id@.owner == segs[0]
                &&& id@.repo == (if segs.len() > 1 {
                    segs[1]
                } else {
                    Seq::<char>::empty()
                })
                &&& id@.number == (if segs.len() > 3 {
                    segs[3]
                } else {
                    Seq::<char>::empty()
                })
            }),
            Err(m) => m@ == "Non-https link, I don't support those!"@,
        }),
{
    proof {
        assert(pr_url@.skip(0) =~= pr_url@);
    }
    if str_starts_with(pr_url, 0, "http://github.com") {
        return Err("Non-https link, I don't support those!");
    }
    let ghost s = pr_url@;
    let n = pr_url.unicode_len();
    let mut pos: usize = 0;
    while str_starts_with(pr_url, pos, "https://github.com/")
        invariant
            pos <= n,
            trim_gh(s) == trim_gh(s.skip(pos as int)),
        decreases n - pos,
    {
        proof {
            reveal_strlit("https://github.com/");
            assert(s.skip(pos as int).skip(19) =~= s.skip(pos as int + 19));
        }
        pos = pos + 19;
    }
    proof {
        reveal_strlit("https://github.com/");
        assert(trim_gh(s.skip(pos as int)) == s.skip(pos as int));
    }
    let ghost t = s.skip(pos as int);

    let mut segs: Vec<String> = Vec::new();
    let mut seg_start = pos;
    let mut i = pos;
    proof {
        assert(segs.deep_view() + split_slash(s.skip(pos as int)) =~= split_slash(
            s.skip(pos as int),
        ));
    }
    while i < n
        invariant
            pos <= seg_start <= i <= n,
            forall|q: int| seg_start <= q < i ==> s[q] != '/',
            split_slash(t) == segs.deep_view() + split_slash(s.skip(seg_start as int)),
        decreases n - i,
    {
        let ghost acc = segs.deep_view();
        if pr_url.get_char(i) == '/' {
            let piece = pr_url.substring_char(seg_start, i).to_owned();
            proof {
                lemma_split_slash_at(s, seg_start as int, i as int);
                assert(acc + (seq![piece@] + split_slash(s.skip(i as int + 1))) =~= acc.push(
                    piece@,
                ) + split_slash(s.skip(i as int + 1)));
            }
            segs.push(piece);
            proof {
                assert(segs.deep_view() =~= acc.push(s.subrange(seg_start as int, i as int)));
            }
            seg_start = i + 1;
        }
        i = i + 1;
    }
    let ghost acc = segs.deep_view();
    let last = pr_url.substring_char(seg_start, n).to_owned();
    proof {
        lemma_split_slash_tail(s, seg_start as int);
        assert(acc + seq![last@] =~= acc.push(last@));
    }
    segs.push(last);
    proof {
        assert(segs.deep_view() =~= acc.push(s.subrange(seg_start as int, n as int)));
        assert(split_slash(t) == segs.deep_view());
    }

    let owner = segs[0].clone();
    let repo = if segs.len() > 1 {
        segs[1].clone()
    } else {
        String::new()
    };
    let number = if segs.len() > 3 {
        segs[3].clone()
    } else {
        String::new()
    };
    Ok(PullRequestIdentifier { owner, repo, number })
}

} // verus!
