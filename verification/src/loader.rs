//! The table of the programs that the kernel can start, each with its name.

use vstd::prelude::*;

verus! {

/// A program that the kernel can start.
pub struct App {
    /// The name of the program.
    pub name: Vec<u8>,
    /// The ELF image of the program.
    pub data: Vec<u8>,
}

/// Whether `i` is the first program of the table with the name `name`.
pub open spec fn is_first_app(apps: Seq<App>, name: Seq<u8>, i: int) -> bool {
    &&& 0 <= i < apps.len()
    &&& apps[i].name@ == name
    &&& forall|j: int| 0 <= j < i ==> (#[trigger] apps[j]).name@ != name
}

/// Whether some program of the table has the name `name`.
pub open spec fn has_app(apps: Seq<App>, name: Seq<u8>) -> bool {
    exists|i: int| 0 <= i < apps.len() && (#[trigger] apps[i]).name@ == name
}

/// Whether two byte strings are the same.
pub fn same_bytes(a: &Vec<u8>, b: &Vec<u8>) -> (r: bool)
    ensures
        r == (a@ == b@),
{
    if a.len() != b.len() {
        return false;
    }
    let mut i: usize = 0;
    while i < a.len()
        invariant
            i <= a.len(),
            a.len() == b.len(),
            forall|k: int| 0 <= k < i ==> a@[k] == b@[k],
        decreases a.len() - i,
    {
        if a[i] != b[i] {
            return false;
        }
        i = i + 1;
    }
    assert(a@ =~= b@);
    true
}

/// The number of programs in the table.
pub fn get_num_app(apps: &Vec<App>) -> (r: usize)
    ensures
        r == apps@.len(),
{
    apps.len()
}

/// The place in the table of the first program with the name `name`, if there is one.
pub fn get_app_data_by_name(apps: &Vec<App>, name: &Vec<u8>) -> (r: Option<usize>)
    ensures
        match r {
            Some(i) => is_first_app(apps@, name@, i as int),
            None => !has_app(apps@, name@),
        },
{
    let mut i: usize = 0;
    while i < apps.len()
        invariant
            i <= apps.len(),
            forall|j: int| 0 <= j < i ==> (#[trigger] apps@[j]).name@ != name@,
        decreases apps.len() - i,
    {
        if same_bytes(&apps[i].name, name) {
            return Some(i);
        }
        i = i + 1;
    }
    None
}

} // verus!
