//! Input formats and their detection from a file name.
use crate::collection::same_chars;
use crate::text::{chars_of, lower_of_chars, lowercase};
use vstd::prelude::*;

verus! {

/// The input formats that the normalisers read.
#[derive(Debug, Clone, Copy, PartialEq, Eq, Structural)]
pub enum FileType {
    /// Standard FASTQ file
    Fastq,
    /// FASTQ file whose annotations carry run metadata
    FastqRich,
    /// FASTQ file read for lengths only
    FastqMinimal,
    /// FASTA file
    Fasta,
    /// BAM alignment file
    Bam,
    /// CRAM alignment file
    Cram,
    /// Unaligned BAM file
    Ubam,
    /// Sequencing summary table
    Summary,
}

/// The index of the last `c` in `cs`, or -1 if there is none.
pub open spec fn last_index_of(cs: Seq<char>, c: char) -> int
    decreases cs.len(),
{
    if cs.len() == 0 {
        -1
    } else if cs.last() == c {
        cs.len() - 1
    } else {
        last_index_of(cs.drop_last(), c)
    }
}

/// The part of a path after its last `/`.
pub open spec fn file_name(path: Seq<char>) -> Seq<char> {
    path.skip(last_index_of(path, '/') + 1)
}

/// The part of a file name after its last `.`, unless that dot is the
/// name's first character or there is none.
pub open spec fn extension(name: Seq<char>) -> Option<Seq<char>> {
    let d = last_index_of(name, '.');
    if d > 0 {
        Some(name.skip(d + 1))
    } else {
        None
    }
}

/// `t` occurs in `s`.
pub open spec fn contains_text(s: Seq<char>, t: Seq<char>) -> bool {
    exists|i: int| 0 <= i && i + t.len() <= s.len() && #[trigger] s.subrange(i, i + t.len()) == t
}

/// The format that a lower-case extension names; a `txt` or `tsv` file is a
/// summary table only when its name contains `summary`.
pub open spec fn type_for(ext: Seq<char>, name: Seq<char>) -> Option<FileType> {
    if ext == "fastq"@ || ext == "fq"@ {
        Some(FileType::Fastq)
    } else if ext == "fasta"@ || ext == "fa"@ || ext == "fas"@ {
        Some(FileType::Fasta)
    } else if ext == "bam"@ {
        Some(FileType::Bam)
    } else if ext == "cram"@ {
        Some(FileType::Cram)
    } else if (ext == "txt"@ || ext == "tsv"@) && contains_text(name, "summary"@) {
        Some(FileType::Summary)
    } else {
        None
    }
}

proof fn lemma_last_index(cs: Seq<char>, c: char, i: int)
    requires
        -1 <= i < cs.len(),
        forall|k: int| i < k < cs.len() ==> cs[k] != c,
        i == -1 || cs[i] == c,
    ensures
        last_index_of(cs, c) == i,
    decreases cs.len(),
{
    if cs.len() > 0 && i < cs.len() - 1 {
        lemma_last_index(cs.drop_last(), c, i);
    }
}

/// The index of the last `c` in `cs`, if any.
fn find_last(cs: &Vec<char>, c: char) -> (r: Option<usize>)
    ensures
        match r {
            Some(i) => last_index_of(cs@, c) == i && i < cs@.len(),
            None => last_index_of(cs@, c) == -1,
        },
{
    let mut i: usize = cs.len();
    while i > 0
        invariant
            i <= cs@.len(),
            forall|k: int| i <= k < cs@.len() ==> cs@[k] != c,
        decreases i,
    {
        if cs[i - 1] == c {
            proof {
                lemma_last_index(cs@, c, i - 1);
            }
            return Some(i - 1);
        }
        i = i - 1;
    }
    proof {
        lemma_last_index(cs@, c, -1);
    }
    None
}

/// Whether `t` occurs in `s`.
pub fn contains_chars(s: &Vec<char>, t: &Vec<char>) -> (r: bool)
    ensures
        r == contains_text(s@, t@),
{
    if t.len() > s.len() {
        return false;
    }
    if t.len() == 0 {
        assert(s@.subrange(0, 0 + t@.len() as int) =~= t@);
        return true;
    }
    let mut i: usize = 0;
    let last = s.len() - t.len();
    while i <= last
        invariant
            1 <= t@.len() <= s@.len() <= usize::MAX,
            last == s@.len() - t@.len(),
            i <= last + 1,
            forall|k: int| 0 <= k < i ==> #[trigger] s@.subrange(k, k + t@.len()) != t@,
        decreases last + 1 - i,
    {
        let mut j: usize = 0;
        let mut same = true;
        while j < t.len()
            invariant
                1 <= t@.len() <= s@.len() <= usize::MAX,
                i <= last,
                last == s@.len() - t@.len(),
                j <= t@.len(),
                same == (forall|k: int| 0 <= k < j ==> s@[i + k] == t@[k]),
            decreases t@.len() - j,
        {
            if s[i + j] != t[j] {
                same = false;
            }
            j = j + 1;
        }
        if same {
            assert(s@.subrange(i as int, i + t@.len()) =~= t@);
            return true;
        }
        assert(s@.subrange(i as int, i + t@.len()) != t@) by {
            let k = choose|k: int| 0 <= k < t@.len() && s@[i + k] != t@[k];
            assert(s@.subrange(i as int, i + t@.len())[k] != t@[k]);
        }
        i = i + 1;
    }
    false
}

fn is_text(cs: &Vec<char>, lit: &str) -> (r: bool)
    ensures
        r == (cs@ == lit@),
{
    let l = chars_of(lit);
    same_chars(cs, &l)
}

impl FileType {
    /// Detects the format from a path's extension, compared without regard
    /// to case.
    pub fn from_extension(path: &str) -> (r: Option<FileType>)
        ensures
            r == match extension(file_name(path@)) {
                Some(ext) => type_for(lower_of_chars(ext), file_name(path@)),
                None => None,
            },
    {
        let cs = chars_of(path);
        let name_start = match find_last(&cs, '/') {
            Some(i) => i + 1,
            None => 0,
        };
        let name = crate::text::string_of(&cs, name_start, cs.len());
        let ncs = chars_of(name.as_str());
        assert(ncs@ =~= file_name(path@));
        let dot = match find_last(&ncs, '.') {
            Some(d) => d,
            None => {
                return None;
            },
        };
        if dot == 0 {
            return None;
        }
        let ext = crate::text::string_of(&ncs, dot + 1, ncs.len());
        let lower = lowercase(ext.as_str());
        let l = chars_of(lower.as_str());
        if is_text(&l, "fastq") || is_text(&l, "fq") {
            Some(FileType::Fastq)
        } else if is_text(&l, "fasta") || is_text(&l, "fa") || is_text(&l, "fas") {
            Some(FileType::Fasta)
        } else if is_text(&l, "bam") {
            Some(FileType::Bam)
        } else if is_text(&l, "cram") {
            Some(FileType::Cram)
        } else if is_text(&l, "txt") || is_text(&l, "tsv") {
            let needle = chars_of("summary");
            if contains_chars(&ncs, &needle) {
                Some(FileType::Summary)
            } else {
                None
            }
        } else {
            None
        }
    }

    /// Whether files of this format are processed one task per file; a
    /// summary table is read as a whole.
    pub fn supports_parallel(&self) -> (r: bool)
        ensures
            r == (*self != FileType::Summary),
    {
        match self {
            FileType::Summary => false,
            _ => true,
        }
    }
}

} // verus!
