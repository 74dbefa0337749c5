//! What a tar archive holds, counted.

use vstd::prelude::*;

verus! {

/// What the crate `tar` finds when it walks the archive in these bytes: for
/// each entry its size, or `None` for an entry that it cannot read, which
/// is then the last.
pub uninterp spec fn tar_entries(bytes: Seq<u8>) -> Seq<Option<u64>>;

/// `tar::Archive::entries` on an archive over the bytes, walked to its
/// end, with `tar::Entry::size` of each entry: what is found depends on
/// the bytes alone. Where the walk cannot start, nothing is found.
#[verifier::external_body]
fn walk_archive(bytes: &[u8]) -> (found: Vec<Option<u64>>)
    ensures
        found@ == tar_entries(bytes@),
{
    let mut archive = tar::Archive::new(std::io::Cursor::new(bytes));
    match archive.entries() {
        Ok(entries) => entries.map(|entry| entry.ok().map(|file| file.size())).collect(),
        Err(_) => Vec::new(),
    }
}

/// The sum of the sizes of the entries that could be read.
pub open spec fn size_sum(found: Seq<Option<u64>>) -> nat
    decreases found.len(),
{
    if found.len() == 0 {
        0
    } else {
        size_sum(found.drop_last()) + match found.last() {
            Some(size) => size as nat,
            None => 0nat,
        }
    }
}

/// Adds up the sizes of the entries that could be read; `None` where the
/// sum does not fit.
pub fn sum_sizes(found: &Vec<Option<u64>>) -> (sum: Option<usize>)
    ensures
        sum == if size_sum(found@) <= usize::MAX {
            Some(size_sum(found@) as usize)
        } else {
            None
        },
{
    let mut sum: u128 = 0;
    let mut i: usize = 0;
    proof {
        assert(found@.take(0) =~= Seq::empty());
    }
    while i < found.len()
        invariant
            i <= found.len(),
            sum == size_sum(found@.take(i as int)),
            sum <= i * 0xffff_ffff_ffff_ffff,
        decreases found.len() - i,
    {
        proof {
            assert(found@.take(i + 1).drop_last() =~= found@.take(i as int));
        }
        match found[i] {
            Some(size) => {
                sum = sum + size as u128;
            },
            None => {},
        }
        i = i + 1;
    }
    proof {
        assert(found@.take(i as int) =~= found@);
    }
    if sum <= usize::MAX as u128 {
        Some(sum as usize)
    } else {
        None
    }
}

/// The number of entries of the archive in these bytes, one that cannot be
/// read counted too.
pub fn archive_files(bytes: &[u8]) -> (count: usize)
    ensures
        count == tar_entries(bytes@).len(),
{
    walk_archive(bytes).len()
}

/// The sum of the sizes of the entries of the archive in these bytes;
/// `None` where the sum does not fit.
pub fn archive_files_size(bytes: &[u8]) -> (sum: Option<usize>)
    ensures
        sum == if size_sum(tar_entries(bytes@)) <= usize::MAX {
            Some(size_sum(tar_entries(bytes@)) as usize)
        } else {
            None
        },
{
    sum_sizes(&walk_archive(bytes))
}

} // verus!
