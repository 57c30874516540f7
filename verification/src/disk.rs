//! A small exercise in trait composition around a disk-file abstraction.
//!
//! Two ways to hand a block device its backing file: `OldBlock` takes the
//! file through the combined [`DiskFile`] trait, `Block` goes through an
//! [`AsyncDisk`] wrapper and borrows the file out of it.  The file types
//! are threaded through as generics, which is what the verifier works
//! with.

use vstd::prelude::*;

verus! {

pub trait A {
    fn a(&self);
}

pub trait B {
    fn b(&self);
}

/// Anything that can serve as a disk file: both capabilities at once.
pub trait DiskFile: A + B {}

impl<T: A + B> DiskFile for T {}

pub struct File {
    pub val: u32,
}

impl A for File {
    fn a(&self) {
    }
}

impl B for File {
    fn b(&self) {
    }
}

/// A disk that can read and can lend out its underlying file.
pub trait AsyncDisk {
    type Inner: DiskFile;

    fn read_it(&self);

    fn inner(&self) -> &Self::Inner;
}

pub struct SingleFileDisk {
    pub file: File,
}

impl AsyncDisk for SingleFileDisk {
    type Inner = File;

    fn read_it(&self) {
    }

    fn inner(&self) -> (f: &File)
        ensures
            f == self.file,
    {
        &self.file
    }
}

/// A block device over a bare disk file.
pub struct OldBlock<D: DiskFile> {
    pub disk: Box<D>,
}

impl<D: DiskFile> OldBlock<D> {
    pub fn do_a(&self) {
        self.disk.a()
    }
}

/// A block device over an [`AsyncDisk`].
pub struct Block<D: AsyncDisk> {
    pub disk: Box<D>,
}

impl<D: AsyncDisk> Block<D> {
    pub fn do_a(&self) {
        self.disk.inner().a()
    }
}

/// Builds both block shapes over a concrete file and runs their `a`
/// operation through the trait plumbing.
pub fn run_test() {
    let file = File { val: 0 };
    let block = OldBlock { disk: Box::new(file) };
    block.do_a();

    let file = File { val: 0 };
    let disk = SingleFileDisk { file };
    let block = Block { disk: Box::new(disk) };
    block.do_a();
}

} // verus!
