//! Small helpers around the pipeline: compression detection, file checks,
//! percent identity and string interning.
use crate::error::NanogetError;
use crate::text::{chars_of, lower_of_chars, lowercase};
use std::sync::{Arc, Mutex};
use vstd::prelude::*;

verus! {

/// The compression of an input file, as its name suggests.
#[derive(Debug, Clone, Copy, PartialEq, Eq, Structural)]
pub enum CompressionType {
    /// Not compressed.
    Uncompressed,
    Gzip,
    Bzip2,
    /// Block gzip, read as gzip.
    Bgzip,
}

pub open spec fn ends_with(s: Seq<char>, t: Seq<char>) -> bool {
    t.len() <= s.len() && s.skip(s.len() - t.len()) == t
}

fn ends_with_chars(s: &Vec<char>, t: &str) -> (r: bool)
    ensures
        r == ends_with(s@, t@),
{
    let tc = chars_of(t);
    if tc.len() > s.len() {
        return false;
    }
    let off = s.len() - tc.len();
    let mut j: usize = 0;
    while j < tc.len()
        invariant
            tc@ == t@,
            off + tc@.len() == s@.len(),
            s@.len() <= usize::MAX,
            j <= tc@.len(),
            forall|k: int| 0 <= k < j ==> s@[off + k] == tc@[k],
        decreases tc@.len() - j,
    {
        if s[off + j] != tc[j] {
            assert(s@.skip(off as int)[j as int] != tc@[j as int]);
            return false;
        }
        j = j + 1;
    }
    assert(s@.skip(off as int) =~= tc@);
    true
}

impl CompressionType {
    /// `.gz` means gzip and `.bz2` bzip2, compared without regard to case;
    /// anything else is read as is.
    pub fn from_path(path: &str) -> (r: CompressionType)
        ensures
            r == if ends_with(lower_of_chars(path@), ".gz"@) {
                CompressionType::Gzip
            } else if ends_with(lower_of_chars(path@), ".bz2"@) {
                CompressionType::Bzip2
            } else {
                CompressionType::Uncompressed
            },
    {
        let lower = lowercase(path);
        let cs = chars_of(lower.as_str());
        if ends_with_chars(&cs, ".gz") {
            CompressionType::Gzip
        } else if ends_with_chars(&cs, ".bz2") {
            CompressionType::Bzip2
        } else {
            CompressionType::Uncompressed
        }
    }
}

/// Fails with `FileNotFound` naming `path` when the file does not exist.
pub fn check_file_exists(path: &str, exists: bool) -> (r: Result<(), NanogetError>)
    ensures
        r is Ok <==> exists,
        r matches Err(NanogetError::FileNotFound(p)) ==> p@ == path@,
        r is Err ==> r matches Err(NanogetError::FileNotFound(_)),
{
    if !exists {
        return Err(NanogetError::FileNotFound(String::from_str(path)));
    }
    Ok(())
}

/// `matches` out of `total_aligned` bases, in thousandths of a percent
/// (rounded down); zero when nothing is aligned.
pub fn calculate_percent_identity(matches: u32, total_aligned: u32) -> (r: u64)
    ensures
        total_aligned == 0 ==> r == 0,
        total_aligned > 0 ==> r == (matches as int) * 100_000 / (total_aligned as int),
{
    if total_aligned == 0 {
        0
    } else {
        (matches as u64) * 100_000 / (total_aligned as u64)
    }
}

/// Keeps one shared copy of each distinct string handed to it.
pub struct StringInterner {
    strings: Vec<Arc<String>>,
}

/// Relies on `Arc::clone`: another handle to the same value.
#[verifier::external_body]
fn share(a: &Arc<String>) -> (r: Arc<String>)
    ensures
        r == *a,
{
    Arc::clone(a)
}

impl StringInterner {
    /// The distinct strings held, in the order they were first seen.
    pub closed spec fn contents(&self) -> Seq<Seq<char>> {
        self.strings@.map_values(|a: Arc<String>| (*a)@)
    }

    pub closed spec fn wf(&self) -> bool {
        forall|i: int, j: int|
            0 <= i < j < self.strings@.len() ==> (*self.strings@[i])@ != (*self.strings@[j])@
    }

    /// An interner holding nothing.
    pub fn new() -> (r: StringInterner)
        ensures
            r.wf(),
            r.contents() == Seq::<Seq<char>>::empty(),
    {
        StringInterner { strings: Vec::new() }
    }

    /// A shared copy of `s`: the one already held if an equal string was
    /// interned before, else a new one that is kept from now on.
    pub fn intern(&mut self, s: String) -> (r: Arc<String>)
        requires
            old(self).wf(),
        ensures
            final(self).wf(),
            (*r)@ == s@,
            old(self).contents().contains(s@) ==> final(self).contents() == old(self).contents(),
            !old(self).contents().contains(s@) ==> final(self).contents() == old(
                self,
            ).contents().push(s@),
    {
        let wanted = chars_of(s.as_str());
        let mut i: usize = 0;
        while i < self.strings.len()
            invariant
                self == old(self),
                old(self).wf(),
                wanted@ == s@,
                i <= self.strings@.len(),
                forall|k: int| 0 <= k < i ==> (*self.strings@[k])@ != s@,
            decreases self.strings@.len() - i,
        {
            let held = chars_of(self.strings[i].as_str());
            if crate::collection::same_chars(&held, &wanted) {
                proof {
                    assert(self.contents()[i as int] == s@);
                }
                return share(&self.strings[i]);
            }
            i = i + 1;
        }
        proof {
            assert forall|k: int| 0 <= k < self.contents().len() implies self.contents()[k] != s@ by {
                assert(self.contents()[k] == (*self.strings@[k])@);
            }
        }
        let a = Arc::new(s);
        self.strings.push(share(&a));
        proof {
            assert(self.contents() =~= old(self).contents().push(s@));
        }
        a
    }
}

/// An interner that threads share behind a lock.
pub type ThreadSafeInterner = Arc<Mutex<StringInterner>>;

#[verifier::external_type_specification]
#[verifier::external_body]
#[verifier::reject_recursive_types(T)]
pub struct ExMutex<T: ?Sized>(Mutex<T>);

/// Relies on `Mutex::new`: a lock around `t`.
#[verifier::external_body]
fn locked(t: StringInterner) -> (r: Mutex<StringInterner>) {
    Mutex::new(t)
}

/// A new, empty interner behind a lock.
pub fn create_interner() -> ThreadSafeInterner {
    Arc::new(locked(StringInterner::new()))
}

} // verus!
