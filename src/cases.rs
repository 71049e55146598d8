use vstd::prelude::*;

verus! {

/// Target architecture of the user programs.
#[derive(Clone, Copy, PartialEq, Eq, Structural, Debug)]
pub enum Arch {
    Riscv32,
    Riscv64,
}

impl Arch {
    /// Assembler directive for one pointer-sized word.
    pub fn data_directive(&self) -> (r: &'static str)
        ensures
            *self == Arch::Riscv32 ==> r@ == ".word"@,
            *self == Arch::Riscv64 ==> r@ == ".quad"@,
    {
        match self {
            Arch::Riscv32 => ".word",
            Arch::Riscv64 => ".quad",
        }
    }

    /// Log2 of the word alignment.
    pub fn align(&self) -> (r: u32)
        ensures
            r == (if *self == Arch::Riscv32 { 2u32 } else { 3u32 }),
    {
        match self {
            Arch::Riscv32 => 2,
            Arch::Riscv64 => 3,
        }
    }
}

/// The user programs of one chapter: their names, and, when `base` is set,
/// the address of the first one and the distance between them.
pub struct Cases {
    pub base: Option<u64>,
    pub step: Option<u64>,
    pub cases: Option<Vec<String>>,
}

/// One program to build, and the address it is linked at (0: no fixed
/// address).
pub struct AppBuild {
    pub name: String,
    pub base_address: u64,
}

/// The build plan of a chapter's programs.
pub struct CasesInfo {
    pub base: u64,
    pub step: u64,
    pub bins: Vec<AppBuild>,
}

/// Address of program `i`: `base + i * step`, wrapping at 2^64.
pub open spec fn app_address(base: u64, step: u64, i: int) -> u64 {
    ((base + (i * step) % 0x1_0000_0000_0000_0000) % 0x1_0000_0000_0000_0000) as u64
}

impl Cases {
    /// Where each program goes: program `i` at `base + i * step`. The step
    /// counts only when a base is given; without names there is nothing to
    /// build.
    pub fn build(&self) -> (r: CasesInfo)
        ensures
            self.cases is None ==> r.base == 0 && r.step == 0 && r.bins@.len() == 0,
            self.cases is Some ==> {
                let names = self.cases->Some_0@;
                let base = match self.base { Some(b) => b, None => 0u64 };
                let step = match (self.base, self.step) { (Some(_), Some(s)) => s, _ => 0u64 };
                &&& r.base == base
                &&& r.step == step
                &&& r.bins@.len() == names.len()
                &&& forall|i: int| 0 <= i < names.len() ==> {
                    &&& (#[trigger] r.bins@[i]).name@ == names[i]@
                    &&& r.bins@[i].base_address == app_address(base, step, i)
                }
            },
    {
        match &self.cases {
            None => CasesInfo { base: 0, step: 0, bins: Vec::new() },
            Some(names) => {
                let base = match self.base {
                    Some(b) => b,
                    None => 0,
                };
                let step = match (self.base, self.step) {
                    (Some(_), Some(s)) => s,
                    _ => 0,
                };
                let mut bins: Vec<AppBuild> = Vec::new();
                let mut i: usize = 0;
                while i < names.len()
                    invariant
                        i <= names@.len(),
                        bins@.len() == i,
                        forall|j: int| 0 <= j < i ==> {
                            &&& (#[trigger] bins@[j]).name@ == names@[j]@
                            &&& bins@[j].base_address == app_address(base, step, j)
                        },
                    decreases names@.len() - i,
                {
                    let addr = base.wrapping_add((i as u64).wrapping_mul(step));
                    bins.push(AppBuild { name: names[i].clone(), base_address: addr });
                    i = i + 1;
                }
                CasesInfo { base, step, bins }
            },
        }
    }
}

} // verus!
