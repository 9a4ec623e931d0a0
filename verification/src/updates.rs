//! Release versions and in-app updating: which release is newer, whether the
//! build can verify and install one, and the result the interface is shown.

use vstd::prelude::*;
use crate::text::{
    is_digit, trim_ws, trim_start_in, to_chars, from_chars, trim_chars, trim_start_set, subvec,
    char_is_digit,
};
use crate::numbers::{decimal_u64, parse_u64_digits};
use crate::search::Platform;

verus! {

/// A tag without surrounding whitespace and its leading `v`s, then `V`s.
pub open spec fn tag_version(tag: Seq<char>) -> Seq<char> {
    trim_start_in(trim_start_in(trim_ws(tag), seq!['v']), seq!['V'])
}

fn strip_version_prefix(s: &str) -> (r: Vec<char>)
    ensures
        r@ == tag_version(s@),
{
    let v = to_chars(s);
    let t = trim_chars(v.as_slice());
    let mut lv: Vec<char> = Vec::new();
    lv.push('v');
    let mut uv: Vec<char> = Vec::new();
    uv.push('V');
    assert(lv@ =~= seq!['v']);
    assert(uv@ =~= seq!['V']);
    let a = trim_start_set(t.as_slice(), lv.as_slice());
    trim_start_set(a.as_slice(), uv.as_slice())
}

pub fn release_version_from_tag(tag: &str) -> (r: String)
    ensures
        r@ == tag_version(tag@),
{
    let v = strip_version_prefix(tag);
    from_chars(v.as_slice())
}

/// `str::split` at every character that is not an ASCII digit.
pub open spec fn split_non_digit(s: Seq<char>) -> Seq<Seq<char>>
    decreases s.len(),
{
    if s.len() == 0 {
        seq![Seq::empty()]
    } else {
        let r = split_non_digit(s.drop_last());
        if !is_digit(s.last()) {
            r.push(Seq::empty())
        } else {
            r.update(r.len() - 1, r.last().push(s.last()))
        }
    }
}

proof fn lemma_split_non_digit_nonempty(s: Seq<char>)
    ensures
        split_non_digit(s).len() >= 1,
    decreases s.len(),
{
    if s.len() > 0 {
        lemma_split_non_digit_nonempty(s.drop_last());
    }
}

/// The digit runs that parse as `u64`, in order; empty and overflowing runs
/// are skipped.
pub open spec fn parsed_runs(parts: Seq<Seq<char>>) -> Seq<u64>
    decreases parts.len(),
{
    if parts.len() == 0 {
        Seq::empty()
    } else {
        let r = parsed_runs(parts.drop_last());
        match decimal_u64(parts.last()) {
            Some(v) => r.push(v),
            None => r,
        }
    }
}

/// The numeric components of a version string.
pub open spec fn version_numbers(version: Seq<char>) -> Seq<u64> {
    parsed_runs(split_non_digit(tag_version(version)))
}

pub fn version_parts(version: &str) -> (r: Vec<u64>)
    ensures
        r@ == version_numbers(version@),
{
    let s = strip_version_prefix(version);
    let n = s.len();
    let mut out: Vec<u64> = Vec::new();
    let mut start: usize = 0;
    let mut j: usize = 0;
    assert(s@.take(0) =~= Seq::<char>::empty());
    while j < n
        invariant
            n == s@.len(),
            start <= j <= n,
            split_non_digit(s@.take(j as int)).len() >= 1,
            split_non_digit(s@.take(j as int)).last() == s@.subrange(start as int, j as int),
            out@ == parsed_runs(split_non_digit(s@.take(j as int)).drop_last()),
        decreases n - j,
    {
        let c = s[j];
        let ghost prev = split_non_digit(s@.take(j as int));
        assert(s@.take(j + 1).drop_last() =~= s@.take(j as int));
        assert(s@.take(j + 1).last() == c);
        if !char_is_digit(c) {
            let run = subvec(s.as_slice(), start, j);
            let parsed = parse_u64_digits(run.as_slice());
            let ghost next = split_non_digit(s@.take(j + 1));
            assert(next == prev.push(Seq::empty()));
            assert(next.drop_last() =~= prev);
            assert(prev =~= prev.drop_last().push(prev.last()));
            match parsed {
                Some(v) => out.push(v),
                None => {},
            }
            start = j + 1;
            assert(s@.subrange(start as int, j + 1) =~= Seq::<char>::empty());
        } else {
            let ghost next = split_non_digit(s@.take(j + 1));
            assert(next == prev.update(prev.len() - 1, prev.last().push(c)));
            assert(next.drop_last() =~= prev.drop_last());
            assert(s@.subrange(start as int, j + 1) =~= s@.subrange(start as int, j as int).push(c));
        }
        j += 1;
    }
    assert(s@.take(n as int) =~= s@);
    let ghost parts = split_non_digit(s@);
    proof {
        lemma_split_non_digit_nonempty(s@);
    }
    let run = subvec(s.as_slice(), start, n);
    let parsed = parse_u64_digits(run.as_slice());
    assert(parts =~= parts.drop_last().push(parts.last()));
    match parsed {
        Some(v) => out.push(v),
        None => {},
    }
    out
}

/// The `i`th component, 0 where a version has fewer.
pub open spec fn component(p: Seq<u64>, i: int) -> u64 {
    if 0 <= i < p.len() {
        p[i]
    } else {
        0
    }
}

/// Component-wise comparison from position `i` to `n`.
pub open spec fn newer_from(a: Seq<u64>, b: Seq<u64>, i: int, n: int) -> bool
    decreases n - i,
{
    if i >= n {
        false
    } else if component(a, i) > component(b, i) {
        true
    } else if component(a, i) < component(b, i) {
        false
    } else {
        newer_from(a, b, i + 1, n)
    }
}

/// At least three components are compared, and as many as the longer has.
pub open spec fn compared_len(a: Seq<u64>, b: Seq<u64>) -> int {
    let m = if a.len() >= b.len() {
        a.len() as int
    } else {
        b.len() as int
    };
    if m >= 3 {
        m
    } else {
        3
    }
}

/// `candidate` is a later release than `current`.
pub open spec fn version_newer(candidate: Seq<char>, current: Seq<char>) -> bool {
    let a = version_numbers(candidate);
    let b = version_numbers(current);
    newer_from(a, b, 0, compared_len(a, b))
}

pub fn version_is_newer(candidate: &str, current: &str) -> (r: bool)
    ensures
        r == version_newer(candidate@, current@),
{
    let a = version_parts(candidate);
    let b = version_parts(current);
    let mut max_len = if a.len() >= b.len() {
        a.len()
    } else {
        b.len()
    };
    if max_len < 3 {
        max_len = 3;
    }
    let mut i: usize = 0;
    while i < max_len
        invariant
            a@ == version_numbers(candidate@),
            b@ == version_numbers(current@),
            max_len == compared_len(a@, b@),
            i <= max_len,
            newer_from(a@, b@, 0, max_len as int) == newer_from(a@, b@, i as int, max_len as int),
        decreases max_len - i,
    {
        let x: u64 = if i < a.len() {
            a[i]
        } else {
            0
        };
        let y: u64 = if i < b.len() {
            b[i]
        } else {
            0
        };
        if x > y {
            return true;
        }
        if x < y {
            return false;
        }
        i += 1;
    }
    false
}

proof fn lemma_newer_from_asymmetric(a: Seq<u64>, b: Seq<u64>, i: int, n: int)
    ensures
        !(newer_from(a, b, i, n) && newer_from(b, a, i, n)),
    decreases n - i,
{
    if i < n && component(a, i) == component(b, i) {
        lemma_newer_from_asymmetric(a, b, i + 1, n);
    }
}

/// No two versions are each newer than the other, and none is newer than itself.
pub proof fn lemma_version_newer_asymmetric(a: Seq<char>, b: Seq<char>)
    ensures
        !(version_newer(a, b) && version_newer(b, a)),
        !version_newer(a, a),
{
    let x = version_numbers(a);
    let y = version_numbers(b);
    assert(compared_len(x, y) == compared_len(y, x));
    lemma_newer_from_asymmetric(x, y, 0, compared_len(x, y));
    lemma_newer_from_asymmetric(x, x, 0, compared_len(x, x));
}

proof fn lemma_newer_from_lexicographic(a: Seq<u64>, b: Seq<u64>, i: int, n: int)
    requires
        0 <= i,
    ensures
        newer_from(a, b, i, n) <==> exists|k: int|
            i <= k < n && component(a, k) > component(b, k) && forall|j: int|
                i <= j < k ==> #[trigger] component(a, j) == component(b, j),
    decreases n - i,
{
    if i < n {
        lemma_newer_from_lexicographic(a, b, i + 1, n);
        if component(a, i) == component(b, i) {
            if newer_from(a, b, i + 1, n) {
                let k = choose|k: int|
                    i + 1 <= k < n && component(a, k) > component(b, k) && forall|j: int|
                        i + 1 <= j < k ==> #[trigger] component(a, j) == component(b, j);
                assert forall|j: int| i <= j < k implies #[trigger] component(a, j) == component(b, j) by {
                    if j > i {
                    }
                }
            } else {
                assert forall|k: int|
                    i <= k < n && component(a, k) > component(b, k) implies !(forall|j: int|
                        i <= j < k ==> #[trigger] component(a, j) == component(b, j)) by {
                    if k > i {
                        if forall|j: int| i <= j < k ==> #[trigger] component(a, j) == component(b, j) {
                            assert forall|j: int| i + 1 <= j < k implies #[trigger] component(a, j)
                                == component(b, j) by {}
                        }
                    }
                }
            }
        } else if component(a, i) < component(b, i) {
            assert forall|k: int|
                i <= k < n && component(a, k) > component(b, k) implies !(forall|j: int|
                    i <= j < k ==> #[trigger] component(a, j) == component(b, j)) by {
                if k > i {
                    assert(component(a, i) != component(b, i));
                }
            }
        } else {
            assert(forall|j: int| i <= j < i ==> #[trigger] component(a, j) == component(b, j));
        }
    }
}

/// Versions compare component by component, most significant first: a
/// candidate is newer exactly when, at the first component where the two
/// differ, the candidate's is larger (missing components count as 0).
pub proof fn lemma_version_newer_is_lexicographic(candidate: Seq<char>, current: Seq<char>)
    ensures
        ({
            let a = version_numbers(candidate);
            let b = version_numbers(current);
            version_newer(candidate, current) <==> exists|k: int|
                0 <= k && component(a, k) > component(b, k) && forall|j: int|
                    0 <= j < k ==> #[trigger] component(a, j) == component(b, j)
        }),
{
    let a = version_numbers(candidate);
    let b = version_numbers(current);
    let n = compared_len(a, b);
    lemma_newer_from_lexicographic(a, b, 0, n);
    if exists|k: int|
        0 <= k && component(a, k) > component(b, k) && forall|j: int|
            0 <= j < k ==> #[trigger] component(a, j) == component(b, j) {
        let k = choose|k: int|
            0 <= k && component(a, k) > component(b, k) && forall|j: int|
                0 <= j < k ==> #[trigger] component(a, j) == component(b, j);
        assert(k < n);
    }
}

// ---------------------------------------------------------------------------
// Installing
// ---------------------------------------------------------------------------

/// The update signing key, if one was configured: surrounding whitespace is
/// dropped, and an empty placeholder means there is none.
pub open spec fn configured_pubkey(configured: Option<Seq<char>>) -> Option<Seq<char>> {
    match configured {
        Some(k) => if trim_ws(k).len() > 0 {
            Some(trim_ws(k))
        } else {
            None
        },
        None => None,
    }
}

pub fn updater_pubkey(configured: Option<&str>) -> (r: Option<String>)
    ensures
        r.deep_view() == configured_pubkey(
            match configured {
                Some(k) => Some(k@),
                None => None,
            },
        ),
{
    match configured {
        Some(k) => {
            let v = to_chars(k);
            let t = trim_chars(v.as_slice());
            if t.len() > 0 {
                Some(from_chars(t.as_slice()))
            } else {
                None
            }
        },
        None => None,
    }
}

/// Replacing the app in place works only for a bundle the app owns; a Linux
/// install outside an AppImage belongs to the package manager.
pub open spec fn install_support(platform: Platform, is_appimage: bool) -> Result<(), Seq<char>> {
    if platform is Linux && !is_appimage {
        Err(
            "This Linux install is managed by your package manager. Update it with apt (or download the latest .deb) rather than from inside ÆTHER."@,
        )
    } else {
        Ok(())
    }
}

pub fn updater_install_support(platform: &Platform, is_appimage: bool) -> (r: Result<(), String>)
    ensures
        match r {
            Ok(()) => install_support(*platform, is_appimage) is Ok,
            Err(e) => install_support(*platform, is_appimage) == Err::<(), Seq<char>>(e@),
        },
{
    match platform {
        Platform::Linux => if !is_appimage {
            return Err(
                String::from_str(
                    "This Linux install is managed by your package manager. Update it with apt (or download the latest .deb) rather than from inside ÆTHER.",
                ),
            );
        },
        _ => {},
    }
    Ok(())
}

/// How an in-app install ended; only the last is a failure of the install.
#[derive(Clone, Copy, Debug, PartialEq, Eq, Structural)]
pub enum UpdateInstallStatus {
    Installed,
    Unconfigured,
    Unsupported,
    Unavailable,
}

pub open spec fn status_text(s: UpdateInstallStatus) -> Seq<char> {
    match s {
        UpdateInstallStatus::Installed => "installed"@,
        UpdateInstallStatus::Unconfigured => "unconfigured"@,
        UpdateInstallStatus::Unsupported => "unsupported"@,
        UpdateInstallStatus::Unavailable => "unavailable"@,
    }
}

impl UpdateInstallStatus {
    pub fn as_str(self) -> (r: &'static str)
        ensures
            r@ == status_text(self),
    {
        match self {
            UpdateInstallStatus::Installed => "installed",
            UpdateInstallStatus::Unconfigured => "unconfigured",
            UpdateInstallStatus::Unsupported => "unsupported",
            UpdateInstallStatus::Unavailable => "unavailable",
        }
    }
}

pub struct UpdateInstallResult {
    pub status: String,
    pub version: Option<String>,
    pub needs_restart: bool,
    pub message: String,
}

impl UpdateInstallResult {
    /// A result without a version; a restart is needed exactly after an install.
    pub fn new(status: UpdateInstallStatus, message: &str) -> (r: UpdateInstallResult)
        ensures
            r.status@ == status_text(status),
            r.version is None,
            r.needs_restart == (status == UpdateInstallStatus::Installed),
            r.message@ == message@,
    {
        UpdateInstallResult {
            status: String::from_str(status.as_str()),
            version: None,
            needs_restart: status == UpdateInstallStatus::Installed,
            message: String::from_str(message),
        }
    }
}

} // verus!
