//! Where the engine's data and configuration files live, relative to a
//! home directory: the path arithmetic is verified here, while looking
//! the home directory up is the host process's business.

use vstd::prelude::*;
use vstd::string::StringExecFns;
use crate::text::chars_of;

verus! {

/// Copies a list of path segments exactly.
fn copy_segments(v: &Vec<String>) -> (r: Vec<String>)
    ensures
        r@ == v@,
{
    let mut r: Vec<String> = Vec::new();
    let mut m: usize = 0;
    while m < v.len()
        invariant
            m <= v@.len(),
            r@ == v@.take(m as int),
        decreases v@.len() - m,
    {
        r.push(v[m].clone());
        proof {
            assert(r@ =~= v@.take(m + 1));
        }
        m = m + 1;
    }
    proof {
        assert(v@.take(v@.len() as int) =~= v@);
    }
    r
}

/// The directory the engine's data files live under:
/// `<home>/.local/share/ime-neovim`, held as path segments.
#[derive(Debug)]
pub struct LocalDataPath {
    pub segments: Vec<String>,
}

impl LocalDataPath {
    /// The data directory under the given home-directory segments.
    pub fn new(home: Vec<String>) -> (r: LocalDataPath)
        ensures
            r.segments@.len() == home@.len() + 3,
            r.segments@.take(home@.len() as int) == home@,
            r.segments@[home@.len() as int]@ == ".local"@,
            r.segments@[home@.len() as int + 1]@ == "share"@,
            r.segments@[home@.len() as int + 2]@ == "ime-neovim"@,
    {
        let ghost h = home@;
        let mut segments = home;
        segments.push(String::from_str(".local"));
        segments.push(String::from_str("share"));
        segments.push(String::from_str("ime-neovim"));
        proof {
            assert(segments@.take(h.len() as int) =~= h);
        }
        LocalDataPath { segments }
    }

    /// Descends into a subdirectory.
    pub fn sub(&mut self, name: &str) -> (r: &mut Self)
        ensures
            *final(self) == *final(r),
            r.segments@.len() == old(self).segments@.len() + 1,
            r.segments@.take(old(self).segments@.len() as int) == old(self).segments@,
            r.segments@.last()@ == name@,
    {
        self.segments.push(String::from_str(name));
        proof {
            assert(self.segments@.take(self.segments@.len() - 1) =~= old(self).segments@);
        }
        self
    }

    /// The segments of a file directly under this directory.
    pub fn file(&self, name: &str) -> (r: Vec<String>)
        ensures
            r@.len() == self.segments@.len() + 1,
            r@.take(self.segments@.len() as int) == self.segments@,
            r@.last()@ == name@,
    {
        let mut r = copy_segments(&self.segments);
        r.push(String::from_str(name));
        proof {
            assert(r@.take(r@.len() - 1) =~= self.segments@);
        }
        r
    }
}

/// The directory the engine's configuration lives under:
/// `<home>/.config/ime-neovim`, held as path segments.
#[derive(Debug)]
pub struct LocalConfigPath {
    pub segments: Vec<String>,
}

impl LocalConfigPath {
    /// The configuration directory under the given home-directory
    /// segments.
    pub fn new(home: Vec<String>) -> (r: LocalConfigPath)
        ensures
            r.segments@.len() == home@.len() + 2,
            r.segments@.take(home@.len() as int) == home@,
            r.segments@[home@.len() as int]@ == ".config"@,
            r.segments@[home@.len() as int + 1]@ == "ime-neovim"@,
    {
        let ghost h = home@;
        let mut segments = home;
        segments.push(String::from_str(".config"));
        segments.push(String::from_str("ime-neovim"));
        proof {
            assert(segments@.take(h.len() as int) =~= h);
        }
        LocalConfigPath { segments }
    }

    /// Descends into a subdirectory.
    pub fn sub(&mut self, name: &str) -> (r: &mut Self)
        ensures
            *final(self) == *final(r),
            r.segments@.len() == old(self).segments@.len() + 1,
            r.segments@.take(old(self).segments@.len() as int) == old(self).segments@,
            r.segments@.last()@ == name@,
    {
        self.segments.push(String::from_str(name));
        proof {
            assert(self.segments@.take(self.segments@.len() - 1) =~= old(self).segments@);
        }
        self
    }

    /// The segments of a file directly under this directory.
    pub fn file(&self, name: &str) -> (r: Vec<String>)
        ensures
            r@.len() == self.segments@.len() + 1,
            r@.take(self.segments@.len() as int) == self.segments@,
            r@.last()@ == name@,
    {
        let mut r = copy_segments(&self.segments);
        r.push(String::from_str(name));
        proof {
            assert(r@.take(r@.len() - 1) =~= self.segments@);
        }
        r
    }
}

} // verus!
