//! The static data export comes as one archive. This module holds the rule
//! by which entries of the archive are picked: the universe files, which
//! describe regions, constellations and solar systems.

use vstd::prelude::*;
use vstd::string::StrSliceExecFns;

verus! {

/// Whether `text` begins with `prefix`.
pub open spec fn begins_with(text: Seq<char>, prefix: Seq<char>) -> bool {
    prefix.len() <= text.len() && text.take(prefix.len() as int) == prefix
}

/// Whether `text` ends with `suffix`.
pub open spec fn finishes_with(text: Seq<char>, suffix: Seq<char>) -> bool {
    suffix.len() <= text.len() && text.skip(text.len() - suffix.len()) == suffix
}

/// Whether an archive entry of this name is a universe file.
pub open spec fn is_universe_file(name: Seq<char>) -> bool {
    begins_with(name, "sde/fsd/universe/eve"@) && finishes_with(name, ".staticdata"@)
}

/// Whether `part` stands in `text` from position `from` on.
fn stands_at(text: &str, from: usize, part: &str) -> (found: bool)
    requires
        from + part@.len() <= text@.len(),
    ensures
        found == (text@.subrange(from as int, from + part@.len()) == part@),
{
    let n = part.unicode_len();
    let total = text.unicode_len();
    let mut k: usize = 0;
    while k < n
        invariant
            k <= n,
            n == part@.len(),
            total == text@.len(),
            from + n <= text@.len(),
            text@.subrange(from as int, from + k) == part@.take(k as int),
        decreases n - k,
    {
        if text.get_char(from + k) != part.get_char(k) {
            assert(text@.subrange(from as int, from + n)[k as int] != part@[k as int]);
            return false;
        }
        assert(text@.subrange(from as int, from + k + 1) =~= part@.take(k + 1)) by {
            assert(text@.subrange(from as int, from + k + 1) =~= text@.subrange(
                from as int,
                from + k,
            ).push(text@[from + k]));
            assert(part@.take(k + 1) =~= part@.take(k as int).push(part@[k as int]));
        }
        k = k + 1;
    }
    assert(part@.take(n as int) =~= part@);
    true
}

/// SdeZipReader holds the reader an archive is read from, and picks the
/// entries to read: files, not directories, that are universe files.
pub struct SdeZipReader<T> {
    reader: T,
}

impl<T> SdeZipReader<T> {
    pub closed spec fn source(self) -> T {
        self.reader
    }

    pub fn new(reader: T) -> (made: SdeZipReader<T>)
        ensures
            made.source() == reader,
    {
        SdeZipReader { reader }
    }

    /// The reader, to read the next entry from.
    pub fn reader_mut(&mut self) -> (reader: &mut T)
        ensures
            *reader == old(self).source(),
            final(self).source() == *final(reader),
    {
        &mut self.reader
    }

    /// Whether the entry of this name is to be read.
    pub fn wants(name: &str, is_dir: bool) -> (wanted: bool)
        ensures
            wanted == (!is_dir && is_universe_file(name@)),
    {
        if is_dir {
            return false;
        }
        let prefix = "sde/fsd/universe/eve";
        let suffix = ".staticdata";
        let n = name.unicode_len();
        let p = prefix.unicode_len();
        let s = suffix.unicode_len();
        if n < p || n < s {
            return false;
        }
        proof {
            assert(name@.take(p as int) =~= name@.subrange(0, p as int));
            assert(name@.skip(n - s) =~= name@.subrange(n - s, n as int));
        }
        stands_at(name, 0, prefix) && stands_at(name, n - s, suffix)
    }
}

} // verus!
