use vstd::prelude::*;

verus! {

#[verifier::external_type_specification]
#[verifier::external_body]
pub struct ExIoError(std::io::Error);

#[verifier::external_type_specification]
#[verifier::external_body]
pub struct ExMmap(memmap2::Mmap);

#[verifier::external_type_specification]
#[verifier::external_body]
pub struct ExMmapMut(memmap2::MmapMut);

/// How a memory map is expected to be accessed; see the madvise(2) man page.
#[derive(PartialEq, Eq, Structural, Debug, Clone, Copy)]
pub enum Advice {
    Normal,
    Random,
    Sequential,
    PopulateRead,
}

/// The advice used when nothing else was set.
pub fn default_advice() -> (r: Advice)
    ensures
        r == Advice::Random,
{
    Advice::Random
}

/// Relies on memmap2::Mmap::advise, which passes the advice to madvise(2);
/// each of our values goes as memmap2's variant of the same name.
#[verifier::external_body]
fn advise_mmap(map: &memmap2::Mmap, advice: Advice) -> std::io::Result<()> {
    map.advise(
        match advice {
            Advice::Normal => memmap2::Advice::Normal,
            Advice::Random => memmap2::Advice::Random,
            Advice::Sequential => memmap2::Advice::Sequential,
            Advice::PopulateRead => memmap2::Advice::PopulateRead,
        },
    )
}

/// Relies on memmap2::MmapMut::advise, which passes the advice to madvise(2);
/// each of our values goes as memmap2's variant of the same name.
#[verifier::external_body]
fn advise_mmap_mut(map: &memmap2::MmapMut, advice: Advice) -> std::io::Result<()> {
    map.advise(
        match advice {
            Advice::Normal => memmap2::Advice::Normal,
            Advice::Random => memmap2::Advice::Random,
            Advice::Sequential => memmap2::Advice::Sequential,
            Advice::PopulateRead => memmap2::Advice::PopulateRead,
        },
    )
}

/// A memory map that can be told how it will be accessed.
pub trait Madviseable {
    fn madvise(&self, advice: Advice) -> std::io::Result<()>;
}

impl Madviseable for memmap2::Mmap {
    fn madvise(&self, advice: Advice) -> std::io::Result<()> {
        advise_mmap(self, advice)
    }
}

impl Madviseable for memmap2::MmapMut {
    fn madvise(&self, advice: Advice) -> std::io::Result<()> {
        advise_mmap_mut(self, advice)
    }
}

/// Advises the OS how `madviseable` will be accessed.
pub fn madvise<M: Madviseable>(madviseable: &M, advice: Advice) -> std::io::Result<()> {
    madviseable.madvise(advice)
}

} // verus!
