//! Self-update decisions: whether a release is newer than the running
//! version, which asset of a release to take, and whether a download
//! matches the checksum its release lists.
use vstd::prelude::*;
use sha2::Digest;
use crate::text::{chars_of, string_of, push_all, push_range, str_eq, str_ends_with, ends_with,
    find_char, find_char_of, lemma_find_char, trimmed, trim_of, is_space, is_space_char, seq_eq};
use crate::search::{space_run_end, lemma_space_run_end};
use crate::vault::{hex_encode, hex_of};

verus! {

broadcast use vstd::string::group_string_axioms;

/// Where an update is staged, next to the executable.
pub const STAGE_DIR: &'static str = ".zapive-update";

/// The newest release: its version and each asset's (name, download url).
pub struct LatestRelease {
    pub version: String,
    pub assets: Vec<(String, String)>,
}

/// The assets as (name, url) texts.
pub open spec fn asset_views(a: Seq<(String, String)>) -> Seq<(Seq<char>, Seq<char>)> {
    a.map_values(|p: (String, String)| (p.0@, p.1@))
}

/// The url of the first asset named `name`.
pub open spec fn asset_url(a: Seq<(Seq<char>, Seq<char>)>, name: Seq<char>) -> Option<Seq<char>>
    decreases a.len(),
{
    if a.len() == 0 {
        None
    } else if a[0].0 == name {
        Some(a[0].1)
    } else {
        asset_url(a.drop_first(), name)
    }
}

impl LatestRelease {
    /// The url of the asset with this name.
    pub fn asset(&self, name: &str) -> (r: Option<String>)
        ensures
            match r {
                Some(u) => asset_url(asset_views(self.assets@), name@) == Some(u@),
                None => asset_url(asset_views(self.assets@), name@) is None,
            },
    {
        let ghost all = asset_views(self.assets@);
        let n = self.assets.len();
        let mut i: usize = 0;
        assert(all.skip(0) =~= all);
        while i < n
            invariant
                n == self.assets@.len(),
                all == asset_views(self.assets@),
                i <= n,
                asset_url(all, name@) == asset_url(all.skip(i as int), name@),
            decreases n - i,
        {
            assert(all.skip(i as int)[0] == all[i as int]);
            assert(all.skip(i as int).drop_first() =~= all.skip(i + 1));
            if str_eq(self.assets[i].0.as_str(), name) {
                return Some(self.assets[i].1.clone());
            }
            i = i + 1;
        }
        assert(all.skip(n as int) =~= Seq::<(Seq<char>, Seq<char>)>::empty());
        None
    }
}

/// The url of the first asset whose name ends in ".AppImage".
pub open spec fn appimage_url(a: Seq<(Seq<char>, Seq<char>)>) -> Option<Seq<char>>
    decreases a.len(),
{
    if a.len() == 0 {
        None
    } else if ends_with(a[0].0, ".AppImage"@) {
        Some(a[0].1)
    } else {
        appimage_url(a.drop_first())
    }
}

/// The release's AppImage, which an AppImage install replaces itself with.
pub fn appimage_asset(assets: &Vec<(String, String)>) -> (r: Option<String>)
    ensures
        match r {
            Some(u) => appimage_url(asset_views(assets@)) == Some(u@),
            None => appimage_url(asset_views(assets@)) is None,
        },
{
    let ghost all = asset_views(assets@);
    let n = assets.len();
    let mut i: usize = 0;
    assert(all.skip(0) =~= all);
    while i < n
        invariant
            n == assets@.len(),
            all == asset_views(assets@),
            i <= n,
            appimage_url(all) == appimage_url(all.skip(i as int)),
        decreases n - i,
    {
        assert(all.skip(i as int)[0] == all[i as int]);
        assert(all.skip(i as int).drop_first() =~= all.skip(i + 1));
        if str_ends_with(assets[i].0.as_str(), ".AppImage") {
            return Some(assets[i].1.clone());
        }
        i = i + 1;
    }
    assert(all.skip(n as int) =~= Seq::<(Seq<char>, Seq<char>)>::empty());
    None
}

/// The text without the characters `c` it starts with.
pub open spec fn trim_leading(s: Seq<char>, c: char) -> Seq<char>
    decreases s.len(),
{
    if s.len() > 0 && s[0] == c {
        trim_leading(s.drop_first(), c)
    } else {
        s
    }
}

fn trim_leading_of(v: &Vec<char>, c: char) -> (r: Vec<char>)
    ensures
        r@ == trim_leading(v@, c),
{
    let n = v.len();
    let mut a: usize = 0;
    assert(v@.skip(0) =~= v@);
    while a < n && v[a] == c
        invariant
            n == v@.len(),
            a <= n,
            trim_leading(v@, c) == trim_leading(v@.skip(a as int), c),
        decreases n - a,
    {
        assert(v@.skip(a as int)[0] == c);
        assert(v@.skip(a as int).drop_first() =~= v@.skip(a + 1));
        a = a + 1;
    }
    let mut out: Vec<char> = Vec::new();
    push_range(&mut out, v, a, n);
    assert(out@ =~= v@.skip(a as int));
    out
}

/// A release tag as a version: without its leading "v"s.
pub fn release_version(tag: &str) -> (r: String)
    ensures
        r@ == trim_leading(tag@, 'v'),
{
    let v = chars_of(tag);
    string_of(&trim_leading_of(&v, 'v'))
}

/// The semver comparison of two version texts: whether `other` is a higher
/// version than `current`, nothing when either does not parse as semver.
pub uninterp spec fn version_bump(current: Seq<char>, other: Seq<char>) -> Option<bool>;

/// `self_update::errors::Error`, the error of the version comparison.
#[verifier::external_type_specification]
#[verifier::external_body]
pub struct ExUpdateError(self_update::errors::Error);

/// Calls `self_update::version::bump_is_greater`, which parses both texts
/// as semver and says whether `other` is the higher version; it fails when
/// either does not parse. Its result depends on the two texts alone.
#[verifier::external_body]
fn bump_is_greater(current: &str, other: &str) -> (r: Result<bool, self_update::errors::Error>)
    ensures
        r is Ok <==> version_bump(current@, other@) is Some,
        r matches Ok(b) ==> version_bump(current@, other@) == Some(b),
{
    self_update::version::bump_is_greater(current, other)
}

/// The version a release offers: the release's own version when the
/// comparison found it higher than the running one, else nothing (an older,
/// equal or unparseable version offers nothing).
pub fn offered_version(bump: Option<bool>, latest: &str) -> (r: Option<String>)
    ensures
        bump == Some(true) ==> (r matches Some(v) && v@ == latest@),
        bump != Some(true) ==> r is None,
{
    match bump {
        Some(true) => Some(latest.to_owned()),
        _ => None,
    }
}

/// What the update check offers for the newest release's tag: its version
/// (the tag without leading "v"s) when that is a higher semver version than
/// the running one, else nothing.
pub fn newer_release(current: &str, tag: &str) -> (r: Option<String>)
    ensures
        version_bump(current@, trim_leading(tag@, 'v')) == Some(true)
            ==> (r matches Some(v) && v@ == trim_leading(tag@, 'v')),
        version_bump(current@, trim_leading(tag@, 'v')) != Some(true) ==> r is None,
{
    let latest = release_version(tag);
    let bump = match bump_is_greater(current, latest.as_str()) {
        Ok(b) => Some(b),
        Err(_) => None,
    };
    offered_version(bump, latest.as_str())
}

/// The line without a carriage return at its end.
pub open spec fn strip_cr(l: Seq<char>) -> Seq<char> {
    if l.len() > 0 && l.last() == '\r' {
        l.drop_last()
    } else {
        l
    }
}

/// The lines of a text: split at "\n" (a "\r" before it goes too); a last
/// line ending adds no empty line.
pub open spec fn lines_of(s: Seq<char>) -> Seq<Seq<char>>
    decreases s.len(),
{
    if s.len() == 0 {
        seq![]
    } else {
        let k = find_char(s, '\n', 0);
        if k >= s.len() {
            seq![s]
        } else {
            proof {
                lemma_find_char(s, '\n', 0);
            }
            seq![strip_cr(s.take(k))] + lines_of(s.skip(k + 1))
        }
    }
}

/// The text with ASCII capitals made small.
pub open spec fn ascii_lower(s: Seq<char>) -> Seq<char> {
    s.map_values(|c: char| if 'A' <= c <= 'Z' { ((c as u32) + 32) as char } else { c })
}

/// What a checksum line lists for `name`: "<sum> <name>" split at its first
/// white space, the name trimmed and without a leading "*" (binary mode),
/// the sum trimmed and in small letters.
pub open spec fn line_sum(l: Seq<char>, name: Seq<char>) -> Option<Seq<char>> {
    let p = space_run_end(l, 0, false);
    if p >= l.len() {
        None
    } else if trim_leading(trimmed(l.skip(p + 1)), '*') == name {
        Some(ascii_lower(trimmed(l.take(p))))
    } else {
        None
    }
}

/// The sum the first line listing `name` gives.
pub open spec fn sum_in(lines: Seq<Seq<char>>, name: Seq<char>) -> Option<Seq<char>>
    decreases lines.len(),
{
    if lines.len() == 0 {
        None
    } else {
        match line_sum(lines[0], name) {
            Some(s) => Some(s),
            None => sum_in(lines.drop_first(), name),
        }
    }
}

fn line_sum_of(l: &Vec<char>, name: &Vec<char>) -> (r: Option<Vec<char>>)
    ensures
        match r {
            Some(s) => line_sum(l@, name@) == Some(s@),
            None => line_sum(l@, name@) is None,
        },
{
    let n = l.len();
    let mut p: usize = 0;
    while p < n && !is_space_char(l[p])
        invariant
            n == l@.len(),
            p <= n,
            space_run_end(l@, 0, false) == space_run_end(l@, p as int, false),
        decreases n - p,
    {
        p = p + 1;
    }
    if p >= n {
        return None;
    }
    let mut rest: Vec<char> = Vec::new();
    push_range(&mut rest, l, p + 1, n);
    assert(rest@ =~= l@.skip(p + 1));
    let nm = trim_leading_of(&trim_of(&rest), '*');
    if !seq_eq(&nm, name) {
        return None;
    }
    let mut sum: Vec<char> = Vec::new();
    push_range(&mut sum, l, 0, p);
    assert(sum@ =~= l@.take(p as int));
    let t = trim_of(&sum);
    let mut out: Vec<char> = Vec::new();
    let m = t.len();
    let mut i: usize = 0;
    while i < m
        invariant
            m == t@.len(),
            i <= m,
            out@ == ascii_lower(t@).take(i as int),
        decreases m - i,
    {
        let c = t[i];
        let lc = if 'A' <= c && c <= 'Z' {
            ((c as u8) + 32) as char
        } else {
            c
        };
        out.push(lc);
        assert(ascii_lower(t@).take(i + 1) =~= ascii_lower(t@).take(i as int).push(lc));
        i = i + 1;
    }
    assert(ascii_lower(t@).take(m as int) =~= ascii_lower(t@));
    Some(out)
}

/// The sum that a checksum file (`sha256sum` format) lists for `name`.
pub fn expected_sum(sums: &str, name: &str) -> (r: Option<String>)
    ensures
        match r {
            Some(s) => sum_in(lines_of(sums@), name@) == Some(s@),
            None => sum_in(lines_of(sums@), name@) is None,
        },
{
    let v = chars_of(sums);
    let nm = chars_of(name);
    let n = v.len();
    let mut from: usize = 0;
    assert(v@.skip(0) =~= v@);
    while from < n
        invariant
            n == v@.len(),
            v@ == sums@,
            nm@ == name@,
            from <= n,
            sum_in(lines_of(sums@), name@) == sum_in(lines_of(v@.skip(from as int)), name@),
        decreases n - from,
    {
        let k = find_char_of(&v, '\n', from);
        proof {
            lemma_find_char(v@, '\n', from as int);
        }
        let ghost rest = v@.skip(from as int);
        let mut line: Vec<char> = Vec::new();
        push_range(&mut line, &v, from, k);
        if k < n && line.len() > 0 && line[line.len() - 1] == '\r' {
            line.pop();
        }
        proof {
            let kk = find_char(rest, '\n', 0);
            lemma_find_char(rest, '\n', 0);
            assert forall|j: int| 0 <= j < k - from implies rest[j] != '\n' by {
                assert(rest[j] == v@[from + j]);
            }
            if k < n {
                assert(rest[k - from] == '\n');
            }
            assert(kk == k - from) by {
                if kk < k - from {
                    assert(rest[kk] == v@[from + kk]);
                }
            }
            if k < n {
                assert(line@ =~= strip_cr(rest.take(kk)));
                assert(lines_of(rest) == seq![strip_cr(rest.take(kk))] + lines_of(rest.skip(kk + 1)));
                assert(rest.skip(kk + 1) =~= v@.skip(k + 1));
            } else {
                assert(line@ =~= rest);
                assert(lines_of(rest) == seq![rest]);
            }
        }
        match line_sum_of(&line, &nm) {
            Some(s) => {
                proof {
                    let ls = lines_of(rest);
                    assert(ls[0] == line@);
                }
                return Some(string_of(&s));
            },
            None => {
                proof {
                    let ls = lines_of(rest);
                    assert(ls[0] == line@);
                    assert(sum_in(ls, name@) == sum_in(ls.drop_first(), name@));
                }
                if k >= n {
                    proof {
                        let ls = lines_of(rest);
                        assert(ls.drop_first() =~= Seq::<Seq<char>>::empty());
                    }
                    return None;
                }
                proof {
                    let ls = lines_of(rest);
                    assert(ls.drop_first() =~= lines_of(v@.skip(k + 1)));
                }
                from = k + 1;
            },
        }
    }
    proof {
        assert(v@.skip(from as int) =~= Seq::<char>::empty());
    }
    None
}

/// The SHA-256 digest of some bytes.
pub uninterp spec fn sha256_digest(bytes: Seq<u8>) -> Seq<u8>;

/// sha2's `Sha256::digest`: the 32-byte digest.
#[verifier::external_body]
fn sha256_of(bytes: &[u8]) -> (r: Vec<u8>)
    ensures
        r@ == sha256_digest(bytes@),
        r@.len() == 32,
{
    sha2::Sha256::digest(bytes).to_vec()
}

/// What checking a download against its release's checksum file gives.
pub open spec fn download_check(bytes: Seq<u8>, sums: Seq<char>, name: Seq<char>) -> Result<(), Seq<char>> {
    match sum_in(lines_of(sums), name) {
        None => Err(name + " is not listed in SHA256SUMS.txt"@),
        Some(expected) => if hex_of(sha256_digest(bytes)) == expected {
            Ok(())
        } else {
            Err("the download does not match its checksum"@)
        },
    }
}

/// Checks a downloaded asset against the sum its release lists for it.
pub fn check_download(bytes: &[u8], sums: &str, name: &str) -> (r: Result<(), String>)
    ensures
        match (r, download_check(bytes@, sums@, name@)) {
            (Ok(_), Ok(_)) => true,
            (Err(e), Err(w)) => e@ == w,
            _ => false,
        },
{
    let expected = match expected_sum(sums, name) {
        Some(e) => e,
        None => {
            let mut m = chars_of(name);
            push_all(&mut m, &chars_of(" is not listed in SHA256SUMS.txt"));
            return Err(string_of(&m));
        },
    };
    let digest = sha256_of(bytes);
    let actual = hex_encode(digest.as_slice());
    if !str_eq(actual.as_str(), expected.as_str()) {
        return Err("the download does not match its checksum".to_string());
    }
    Ok(())
}

} // verus!
