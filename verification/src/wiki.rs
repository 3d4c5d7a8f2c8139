//! The computing side of the wiki client: revision descriptors, the
//! antivandalism filter over revision comments, wikitext redirect parsing,
//! and the query string an API call is keyed and sent by. The network calls
//! themselves live outside the library and hand plain values in and out.

use vstd::prelude::*;

verus! {

use vstd::string::StringExecFns;

/// One entry of an article's revision history.
#[derive(Clone)]
pub struct Revision {
    pub revid: u64,
    pub parentid: u64,
    pub comment: String,
}

/// `needle` occurs contiguously somewhere in `haystack`.
pub open spec fn spec_contains_sub(haystack: Seq<u8>, needle: Seq<u8>) -> bool {
    exists|i: int|
        0 <= i && i + needle.len() <= haystack.len() && #[trigger] haystack.subrange(
            i,
            i + needle.len(),
        ) == needle
}

/// Byte-exact substring search.
pub fn bytes_contain(haystack: &[u8], needle: &[u8]) -> (r: bool)
    ensures
        r == spec_contains_sub(haystack@, needle@),
{
    let hlen = haystack.len();
    let nlen = needle.len();
    if nlen > hlen {
        proof {
            assert(!spec_contains_sub(haystack@, needle@));
        }
        return false;
    }
    let mut i: usize = 0;
    while i <= hlen - nlen
        invariant
            hlen == haystack@.len(),
            nlen == needle@.len(),
            needle@.len() <= haystack@.len(),
            0 <= i <= haystack@.len(),
            forall|k: int|
                0 <= k < i && k + needle@.len() <= haystack@.len() ==> #[trigger] haystack@.subrange(
                    k,
                    k + needle@.len(),
                ) != needle@,
        decreases haystack@.len() - i,
    {
        let mut j: usize = 0;
        let mut matches = true;
        while j < nlen
            invariant
                hlen == haystack@.len(),
                nlen == needle@.len(),
                0 <= j <= nlen,
                i + nlen <= hlen,
                matches == (forall|k: int|
                    0 <= k < j ==> haystack@[i + k] == #[trigger] needle@[k]),
            decreases needle@.len() - j,
        {
            if haystack[i + j] != needle[j] {
                matches = false;
                proof {
                    assert(haystack@[i + j] != needle@[j as int]);
                }
                j = nlen;
            } else {
                j += 1;
            }
        }
        if matches {
            proof {
                assert(haystack@.subrange(i as int, i + needle@.len()) =~= needle@);
            }
            return true;
        }
        proof {
            if haystack@.subrange(i as int, i + needle@.len()) == needle@ {
                assert(forall|k: int|
                    0 <= k < needle@.len() ==> haystack@[i + k] == #[trigger] needle@[k]);
                assert(false);
            }
        }
        i += 1;
    }
    proof {
        assert(!spec_contains_sub(haystack@, needle@));
    }
    false
}

/// The ASCII bytes of the word that flags a reversion of vandalism.
pub open spec fn vandal_bytes() -> Seq<u8> {
    seq![118u8, 97u8, 110u8, 100u8, 97u8, 108u8]
}

/// A revision whose comment mentions that word is an antivandalism
/// revision: it reverted an edit the community flagged as vandalism.
pub open spec fn is_antivandalism(rev: Revision) -> bool {
    spec_contains_sub(vstd::utf8::encode_utf8(rev.comment@), vandal_bytes())
}

/// Whether this revision's comment mentions the vandalism word.
pub fn comment_mentions_vandal(rev: &Revision) -> (r: bool)
    ensures
        r == is_antivandalism(*rev),
{
    let needle: [u8; 6] = [118, 97, 110, 100, 97, 108];
    proof {
        assert(needle@ =~= vandal_bytes());
    }
    bytes_contain(rev.comment.as_str().as_bytes(), needle.as_slice())
}

/// Keeps exactly the revisions that reverted vandalism, in history order.
pub fn get_antivandalism_revisions(revisions: Vec<Revision>) -> (r: Vec<Revision>)
    ensures
        r@ == revisions@.filter(|rev: Revision| is_antivandalism(rev)),
{
    let mut input = revisions;
    let mut out: Vec<Revision> = Vec::new();
    let ghost mut done: Seq<Revision> = Seq::empty();
    proof {
        reveal(Seq::filter);
        assert(done + input@ =~= revisions@);
        assert(done.filter(|rev: Revision| is_antivandalism(rev)) =~= Seq::<Revision>::empty());
    }
    while input.len() > 0
        invariant
            done + input@ == revisions@,
            out@ == done.filter(|rev: Revision| is_antivandalism(rev)),
        decreases input@.len(),
    {
        let ghost done0 = done;
        let rev = input.remove(0);
        let keep = comment_mentions_vandal(&rev);
        proof {
            reveal(Seq::filter);
            done = done0.push(rev);
            assert(done.drop_last() =~= done0);
            assert(done.last() == rev);
            assert(done + input@ =~= revisions@);
        }
        if keep {
            out.push(rev);
        }
    }
    proof {
        assert(done =~= revisions@);
    }
    out
}

/// Where the revision list sits in the API's answer.
pub open spec fn revisions_path() -> Seq<crate::json::JsonPathElement> {
    seq![
        crate::json::JsonPathElement::Key("query"),
        crate::json::JsonPathElement::Key("pages"),
        crate::json::JsonPathElement::Only,
        crate::json::JsonPathElement::Key("revisions"),
    ]
}

/// One revision entry holds these three fields.
pub open spec fn spec_revision_fields(v: crate::json::JsonValue, rev: Revision) -> bool {
    &&& crate::json::spec_get_json(v, seq![crate::json::JsonPathElement::Key("revid")], 0) == Some(
        crate::json::JsonValue::Number(rev.revid),
    )
    &&& crate::json::spec_get_json(v, seq![crate::json::JsonPathElement::Key("parentid")], 0)
        == Some(crate::json::JsonValue::Number(rev.parentid))
    &&& (crate::json::spec_get_json(v, seq![crate::json::JsonPathElement::Key("comment")], 0)
        matches Some(c) && c matches crate::json::JsonValue::String(s) && s@ == rev.comment@)
}

/// One revision entry is well-formed: its identifier and its parent's are
/// numbers, and its comment is a string.
pub open spec fn spec_revision_entry_ok(v: crate::json::JsonValue) -> bool {
    &&& (crate::json::spec_get_json(v, seq![crate::json::JsonPathElement::Key("revid")], 0)
        matches Some(j) && j is Number)
    &&& (crate::json::spec_get_json(v, seq![crate::json::JsonPathElement::Key("parentid")], 0)
        matches Some(j) && j is Number)
    &&& (crate::json::spec_get_json(v, seq![crate::json::JsonPathElement::Key("comment")], 0)
        matches Some(j) && j is String)
}

/// The answer holds the revision array and every entry is well-formed.
pub open spec fn spec_revisions_wf(json: crate::json::JsonValue) -> bool {
    match crate::json::spec_get_json(json, revisions_path(), 0) {
        Some(j) => match j {
            crate::json::JsonValue::Array(arr) => forall|i: int|
                0 <= i < arr@.len() ==> spec_revision_entry_ok(#[trigger] arr@[i]),
            _ => false,
        },
        None => false,
    }
}

/// Reads the revision list out of a history answer from the API: one
/// descriptor per entry, each carrying its identifier, its parent's, and
/// the edit comment. It succeeds exactly when the answer holds the revision
/// array and every entry is well-formed.
pub fn revisions_from_json(json: &crate::json::JsonValue) -> (r: Result<Vec<Revision>, String>)
    ensures
        r matches Ok(revs) ==> (crate::json::spec_get_json(*json, revisions_path(), 0) matches Some(
            j,
        ) && j matches crate::json::JsonValue::Array(arr) && revs@.len() == arr@.len() && forall|
            i: int,
        |
            0 <= i < arr@.len() ==> spec_revision_fields(arr@[i], #[trigger] revs@[i])),
        r is Err ==> !spec_revisions_wf(*json),
{
    let path = [
        crate::json::JsonPathElement::Key("query"),
        crate::json::JsonPathElement::Key("pages"),
        crate::json::JsonPathElement::Only,
        crate::json::JsonPathElement::Key("revisions"),
    ];
    proof {
        assert(path@ =~= revisions_path());
    }
    let revisions_json = match crate::json::get_json_array(json, path.as_slice()) {
        Ok(a) => a,
        Err(m) => {
            return Err(m);
        },
    };
    let mut revisions: Vec<Revision> = Vec::new();
    let mut i: usize = 0;
    while i < revisions_json.len()
        invariant
            crate::json::spec_get_json(*json, revisions_path(), 0) == Some(
                crate::json::JsonValue::Array(*revisions_json),
            ),
            0 <= i <= revisions_json@.len(),
            revisions@.len() == i,
            forall|k: int|
                0 <= k < i ==> spec_revision_fields(revisions_json@[k], #[trigger] revisions@[k]),
        decreases revisions_json@.len() - i,
    {
        let entry = &revisions_json[i];
        let revid_path = [crate::json::JsonPathElement::Key("revid")];
        let parentid_path = [crate::json::JsonPathElement::Key("parentid")];
        let comment_path = [crate::json::JsonPathElement::Key("comment")];
        proof {
            assert(revid_path@ =~= seq![crate::json::JsonPathElement::Key("revid")]);
            assert(parentid_path@ =~= seq![crate::json::JsonPathElement::Key("parentid")]);
            assert(comment_path@ =~= seq![crate::json::JsonPathElement::Key("comment")]);
        }
        let revid = match crate::json::get_json_number(entry, revid_path.as_slice()) {
            Ok(n) => n,
            Err(m) => {
                proof {
                    assert(!spec_revision_entry_ok(revisions_json@[i as int]));
                    if spec_revisions_wf(*json) {
                        assert(spec_revision_entry_ok(revisions_json@[i as int]));
                    }
                }
                return Err(m);
            },
        };
        let parentid = match crate::json::get_json_number(entry, parentid_path.as_slice()) {
            Ok(n) => n,
            Err(m) => {
                proof {
                    assert(!spec_revision_entry_ok(revisions_json@[i as int]));
                    if spec_revisions_wf(*json) {
                        assert(spec_revision_entry_ok(revisions_json@[i as int]));
                    }
                }
                return Err(m);
            },
        };
        let comment = match crate::json::get_json_string(entry, comment_path.as_slice()) {
            Ok(s) => s.to_owned(),
            Err(m) => {
                proof {
                    assert(!spec_revision_entry_ok(revisions_json@[i as int]));
                    if spec_revisions_wf(*json) {
                        assert(spec_revision_entry_ok(revisions_json@[i as int]));
                    }
                }
                return Err(m);
            },
        };
        revisions.push(Revision { revid, parentid, comment });
        i += 1;
    }
    Ok(revisions)
}

/// The byte pattern a wikitext redirect page starts its directive with.
pub open spec fn redirect_prefix() -> Seq<u8> {
    seq![35u8, 82u8, 69u8, 68u8, 73u8, 82u8, 69u8, 67u8, 84u8, 32u8, 91u8, 91u8]
}

/// First occurrence of byte `b` at or after `i`.
pub open spec fn find_byte(s: Seq<u8>, i: int, b: u8) -> Option<int>
    decreases s.len() - i,
{
    if i < 0 || i >= s.len() {
        None
    } else if s[i] == b {
        Some(i)
    } else {
        find_byte(s, i + 1, b)
    }
}

/// The target of the first well-formed redirect directive at or after `i`:
/// the prefix, then at least one byte up to the next `]`, which must be
/// doubled. A directive whose brackets do not close properly is skipped.
pub open spec fn spec_redirect_from(s: Seq<u8>, i: int) -> Option<Seq<u8>>
    decreases s.len() - i,
{
    if i < 0 || i + redirect_prefix().len() > s.len() {
        None
    } else if s.subrange(i, i + redirect_prefix().len()) == redirect_prefix() {
        let start = i + redirect_prefix().len();
        match find_byte(s, start, 93u8) {
            Some(k) => {
                if k > start && k + 1 < s.len() && s[k + 1] == 93u8 {
                    Some(s.subrange(start, k))
                } else {
                    spec_redirect_from(s, i + 1)
                }
            },
            None => None,
        }
    } else {
        spec_redirect_from(s, i + 1)
    }
}

/// Whether the prefix pattern occurs at position `i`.
fn prefix_matches_at(s: &[u8], i: usize) -> (r: bool)
    requires
        i + 12 <= s@.len(),
    ensures
        r == (s@.subrange(i as int, i + 12) == redirect_prefix()),
{
    let pat: [u8; 12] = [35, 82, 69, 68, 73, 82, 69, 67, 84, 32, 91, 91];
    proof {
        assert(pat@ =~= redirect_prefix());
    }
    let n = s.len();
    let mut j: usize = 0;
    while j < 12
        invariant
            n == s@.len(),
            0 <= j <= 12,
            i + 12 <= n,
            pat@ == redirect_prefix(),
            forall|k: int| 0 <= k < j ==> s@[i + k] == #[trigger] pat@[k],
        decreases 12 - j,
    {
        if s[i + j] != pat[j] {
            proof {
                assert(s@.subrange(i as int, i + 12)[j as int] != redirect_prefix()[j as int]);
            }
            return false;
        }
        j += 1;
    }
    proof {
        assert(s@.subrange(i as int, i + 12) =~= redirect_prefix());
    }
    true
}

/// First `]` at or after `i`, as an index.
fn find_close_bracket(s: &[u8], i: usize) -> (r: Option<usize>)
    requires
        i <= s@.len(),
    ensures
        match r {
            Some(k) => find_byte(s@, i as int, 93u8) == Some(k as int) && i <= k < s@.len(),
            None => find_byte(s@, i as int, 93u8) is None,
        },
{
    let mut j: usize = i;
    while j < s.len()
        invariant
            i <= j <= s@.len(),
            find_byte(s@, i as int, 93u8) == find_byte(s@, j as int, 93u8),
        decreases s@.len() - j,
    {
        if s[j] == 93 {
            return Some(j);
        }
        j += 1;
    }
    None
}

/// Finds the target of a `#REDIRECT [[target]]` directive in the wikitext,
/// if there is one: the canonical-title resolution follows it.
pub fn redirect_target(content: &[u8]) -> (r: Option<Vec<u8>>)
    ensures
        match r {
            Some(t) => spec_redirect_from(content@, 0) == Some(t@),
            None => spec_redirect_from(content@, 0) is None,
        },
{
    let n = content.len();
    if n < 12 {
        return None;
    }
    let mut i: usize = 0;
    while i <= n - 12
        invariant
            n == content@.len(),
            n >= 12,
            0 <= i <= content@.len(),
            spec_redirect_from(content@, 0) == spec_redirect_from(content@, i as int),
        decreases content@.len() - i,
    {
        if prefix_matches_at(content, i) {
            let start = i + 12;
            match find_close_bracket(content, start) {
                Some(k) => {
                    if k > start && k + 1 < content.len() && content[k + 1] == 93 {
                        let t = vstd::slice::slice_subrange(content, start, k);
                        return Some(vstd::slice::slice_to_vec(t));
                    }
                },
                None => {
                    return None;
                },
            }
        }
        i += 1;
    }
    None
}

/// The characters appended to every API query.
pub open spec fn format_json_chars() -> Seq<char> {
    seq!['&', 'f', 'o', 'r', 'm', 'a', 't', '=', 'j', 's', 'o', 'n']
}

/// The `k=v` pairs joined with `&`.
pub open spec fn spec_params_chars(ps: Seq<(String, String)>) -> Seq<char>
    decreases ps.len(),
{
    if ps.len() == 0 {
        Seq::empty()
    } else if ps.len() == 1 {
        ps[0].0@ + seq!['='] + ps[0].1@
    } else {
        spec_params_chars(ps.drop_last()) + seq!['&'] + ps.last().0@ + seq!['='] + ps.last().1@
    }
}

/// Builds the query string an API call sends and is cached by: the `k=v`
/// pairs joined with `&`, then the JSON format selector.
pub fn build_query(params: &Vec<(String, String)>) -> (r: String)
    ensures
        r@ == spec_params_chars(params@) + format_json_chars(),
{
    let mut q = String::new();
    let mut i: usize = 0;
    proof {
        reveal_strlit("=");
        reveal_strlit("&");
        reveal_strlit("&format=json");
    }
    while i < params.len()
        invariant
            0 <= i <= params@.len(),
            q@ == spec_params_chars(params@.take(i as int)),
        decreases params@.len() - i,
    {
        if i > 0 {
            q.append("&");
            proof {
                reveal_strlit("&");
            }
        }
        q.append(params[i].0.as_str());
        q.append("=");
        proof {
            reveal_strlit("=");
        }
        q.append(params[i].1.as_str());
        proof {
            assert(params@.take(i + 1).drop_last() =~= params@.take(i as int));
            assert(params@.take(i + 1).last() == params@[i as int]);
            assert(q@ =~= spec_params_chars(params@.take(i + 1)));
        }
        i += 1;
    }
    q.append("&format=json");
    proof {
        reveal_strlit("&format=json");
        assert(params@.take(params@.len() as int) =~= params@);
        assert("&format=json"@ =~= format_json_chars());
    }
    q
}

} // verus!
