use crate::text::{chars_of, starts_with, views};
use vstd::prelude::*;
use vstd::string::*;

verus! {

/// Whether one of the paths `changed` begins with one of `service_paths`.
pub open spec fn any_changed(changed: Seq<Seq<char>>, service_paths: Seq<Seq<char>>) -> bool {
    exists|i: int, j: int|
        0 <= i < changed.len() && 0 <= j < service_paths.len() && (#[trigger] service_paths[j]).is_prefix_of(
            #[trigger] changed[i],
        )
}

/// Whether a change touches the service: whether one of the changed paths
/// begins with one of the paths that the service is built from.
pub fn any_service_files_changed(changed_git_paths: &Vec<String>, service_paths: &Vec<String>) -> (r:
    bool)
    ensures
        r == any_changed(views(changed_git_paths@), views(service_paths@)),
{
    let ghost changed = views(changed_git_paths@);
    let ghost services = views(service_paths@);
    let mut i: usize = 0;
    while i < changed_git_paths.len()
        invariant
            i <= changed_git_paths.len(),
            changed == views(changed_git_paths@),
            services == views(service_paths@),
            forall|a: int, b: int|
                0 <= a < i && 0 <= b < services.len() ==> !(#[trigger] services[b]).is_prefix_of(
                    #[trigger] changed[a],
                ),
        decreases changed_git_paths.len() - i,
    {
        let mut j: usize = 0;
        while j < service_paths.len()
            invariant
                i < changed_git_paths.len(),
                j <= service_paths.len(),
                changed == views(changed_git_paths@),
                services == views(service_paths@),
                forall|b: int|
                    0 <= b < j ==> !(#[trigger] services[b]).is_prefix_of(changed[i as int]),
            decreases service_paths.len() - j,
        {
            if starts_with(changed_git_paths[i].as_str(), service_paths[j].as_str()) {
                assert(services[j as int].is_prefix_of(changed[i as int]));
                return true;
            }
            j = j + 1;
        }
        i = i + 1;
    }
    false
}

/// Whether `c` is white space: one of the characters that Unicode gives the
/// property White_Space.
pub open spec fn is_space(c: char) -> bool {
    let code = c as u32;
    ||| 0x09 <= code <= 0x0d
    ||| code == 0x20
    ||| code == 0x85
    ||| code == 0xa0
    ||| code == 0x1680
    ||| 0x2000 <= code <= 0x200a
    ||| code == 0x2028
    ||| code == 0x2029
    ||| code == 0x202f
    ||| code == 0x205f
    ||| code == 0x3000
}

/// Whether `c` is white space.
pub fn space(c: char) -> (r: bool)
    ensures
        r == is_space(c),
{
    let code = c as u32;
    (0x09 <= code && code <= 0x0d) || code == 0x20 || code == 0x85 || code == 0xa0 || code
        == 0x1680 || (0x2000 <= code && code <= 0x200a) || code == 0x2028 || code == 0x2029
        || code == 0x202f || code == 0x205f || code == 0x3000
}

/// The number of characters at the start of `s` before its first white
/// space, or before its end.
pub open spec fn word_len(s: Seq<char>) -> nat
    decreases s.len(),
{
    if s.len() == 0 || is_space(s[0]) {
        0
    } else {
        1 + word_len(s.drop_first())
    }
}

/// The words of `s`: its longest stretches without white space, in order.
pub open spec fn words(s: Seq<char>) -> Seq<Seq<char>>
    decreases s.len(),
    via words_decreases
{
    if s.len() == 0 {
        Seq::empty()
    } else if is_space(s[0]) {
        words(s.drop_first())
    } else {
        seq![s.take(word_len(s) as int)] + words(s.skip(word_len(s) as int))
    }
}

#[via_fn]
proof fn words_decreases(s: Seq<char>) {
    if s.len() > 0 && !is_space(s[0]) {
        lemma_word_len(s);
    }
}

proof fn lemma_word_len(s: Seq<char>)
    ensures
        word_len(s) <= s.len(),
        forall|k: int| 0 <= k < word_len(s) ==> !is_space(#[trigger] s[k]),
        word_len(s) < s.len() ==> is_space(s[word_len(s) as int]),
    decreases s.len(),
{
    if s.len() > 0 && !is_space(s[0]) {
        let rest = s.drop_first();
        lemma_word_len(rest);
        assert forall|k: int| 0 <= k < word_len(s) implies !is_space(#[trigger] s[k]) by {
            if k > 0 {
                assert(s[k] == rest[k - 1]);
            }
        }
        if word_len(s) < s.len() {
            assert(s[word_len(s) as int] == rest[word_len(rest) as int]);
        }
    }
}

proof fn lemma_word_end(s: Seq<char>, n: int)
    requires
        0 <= n <= s.len(),
        forall|k: int| 0 <= k < n ==> !is_space(#[trigger] s[k]),
        n < s.len() ==> is_space(s[n]),
    ensures
        word_len(s) == n,
    decreases n,
{
    if n > 0 {
        let rest = s.drop_first();
        assert forall|k: int| 0 <= k < n - 1 implies !is_space(#[trigger] rest[k]) by {
            assert(rest[k] == s[k + 1]);
        }
        lemma_word_end(rest, n - 1);
    }
}

/// The paths that a listing of changed files names: its words.
pub fn changed_paths(listing: &str) -> (paths: Vec<String>)
    ensures
        views(paths@) == words(listing@),
{
    let chars = chars_of(listing);
    let ghost s = listing@;
    let mut paths: Vec<String> = Vec::new();
    let mut i: usize = 0;
    proof {
        assert(s.skip(0) =~= s);
        assert(views(paths@) =~= Seq::<Seq<char>>::empty());
    }
    while i < chars.len()
        invariant
            chars@ == s,
            s == listing@,
            i <= chars.len(),
            views(paths@) + words(s.skip(i as int)) == words(s),
        decreases chars.len() - i,
    {
        if space(chars[i]) {
            proof {
                assert(s.skip(i as int).drop_first() =~= s.skip(i + 1));
            }
            i = i + 1;
        } else {
            let start = i;
            let mut j: usize = i + 1;
            while j < chars.len() && !space(chars[j])
                invariant
                    chars@ == s,
                    start < j <= chars.len(),
                    forall|k: int| start <= k < j ==> !is_space(#[trigger] s[k]),
                decreases chars.len() - j,
            {
                j = j + 1;
            }
            let ghost before = views(paths@);
            proof {
                let rest = s.skip(start as int);
                assert forall|k: int| 0 <= k < j - start implies !is_space(#[trigger] rest[k]) by {
                    assert(rest[k] == s[start + k]);
                }
                lemma_word_end(rest, j - start);
                assert(rest.take(j - start) =~= s.subrange(start as int, j as int));
                assert(rest.skip(j - start) =~= s.skip(j as int));
            }
            paths.push(String::from_str(listing.substring_char(start, j)));
            proof {
                assert(views(paths@) =~= before.push(s.subrange(start as int, j as int)));
                assert(views(paths@) + words(s.skip(j as int)) =~= before + (seq![
                    s.subrange(start as int, j as int),
                ] + words(s.skip(j as int))));
            }
            i = j;
        }
    }
    proof {
        assert(words(s.skip(i as int)) =~= Seq::<Seq<char>>::empty());
        assert(views(paths@) + Seq::<Seq<char>>::empty() =~= views(paths@));
    }
    paths
}

} // verus!
