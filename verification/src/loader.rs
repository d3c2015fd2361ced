//! The applications linked into the kernel image: their names and where
//! their ELF data lies.
use crate::fs::userbuf::total_len;
use vstd::prelude::*;

verus! {

/// Where name `k` starts in the name list: after the earlier names and the
/// NUL byte that ends each of them.
pub open spec fn name_offset(names: Seq<Seq<u8>>, k: int) -> int {
    total_len(names.take(k)) + k
}

/// Name `k` lies in `blob` at its offset and is ended there by a NUL byte,
/// and holds no NUL itself.
pub open spec fn name_at(blob: Seq<u8>, names: Seq<Seq<u8>>, k: int) -> bool {
    let o = name_offset(names, k);
    &&& o + names[k].len() < blob.len()
    &&& blob.subrange(o, o + names[k].len()) == names[k]
    &&& blob[o + names[k].len()] == 0
    &&& forall|j: int| 0 <= j < names[k].len() ==> names[k][j] != 0
}

/// `names` are the first NUL-terminated strings of `blob`, in order.
pub open spec fn names_layout(blob: Seq<u8>, names: Seq<Seq<u8>>) -> bool {
    forall|k: int| 0 <= k < names.len() ==> #[trigger] name_at(blob, names, k)
}

/// The names as byte sequences.
pub open spec fn names_view(v: Seq<Vec<u8>>) -> Seq<Seq<u8>> {
    v.map_values(|x: Vec<u8>| x@)
}

/// Adding a name moves the offset past it and its NUL, and leaves the
/// offsets of the earlier names alone.
proof fn lemma_offset_push(names: Seq<Seq<u8>>, x: Seq<u8>)
    ensures
        name_offset(names.push(x), names.len() + 1int) == name_offset(names, names.len() as int) + x.len() + 1,
        forall|k: int| 0 <= k <= names.len() ==> #[trigger] name_offset(names.push(x), k) == name_offset(names, k),
{
    let p = names.push(x);
    assert(p.take(names.len() + 1int) =~= p);
    assert(p.drop_last() =~= names);
    assert(names.take(names.len() as int) =~= names);
    assert forall|k: int| 0 <= k <= names.len() implies #[trigger] name_offset(p, k) == name_offset(names, k) by {
        assert(p.take(k) =~= names.take(k));
    }
}

/// Reads `num_app` NUL-terminated names from the start of `blob`. Gives
/// `None` when `blob` ends before the last of them is terminated; then the
/// names read so far are followed by no NUL byte at all.
pub fn gen_app_names_vec(num_app: usize, blob: &[u8]) -> (r: Option<Vec<Vec<u8>>>)
    ensures
        r matches Some(v) ==> v.len() == num_app && names_layout(blob@, names_view(v@)),
        r is None ==> exists|p: Seq<Seq<u8>>|
            #![trigger names_layout(blob@, p)]
            p.len() < num_app && names_layout(blob@, p) && forall|j: int|
                name_offset(p, p.len() as int) <= j < blob@.len() ==> blob@[j] != 0,
{
    let mut apps: Vec<Vec<u8>> = Vec::new();
    let mut start: usize = 0;
    let mut i: usize = 0;
    while i < num_app
        invariant
            apps.len() == i,
            i <= num_app,
            start == name_offset(names_view(apps@), i as int),
            start <= blob@.len(),
            names_layout(blob@, names_view(apps@)),
        decreases num_app - i,
    {
        let mut name: Vec<u8> = Vec::new();
        let mut end = start;
        while end < blob.len() && blob[end] != 0
            invariant
                start <= end <= blob@.len(),
                name@ == blob@.subrange(start as int, end as int),
                forall|j: int| start <= j < end ==> blob@[j] != 0,
            decreases blob@.len() - end,
        {
            name.push(blob[end]);
            end = end + 1;
            assert(name@ =~= blob@.subrange(start as int, end as int));
        }
        if end == blob.len() {
            proof {
                let p = names_view(apps@);
                assert(p.len() < num_app);
                assert(names_layout(blob@, p));
            }
            return None;
        }
        let ghost old_names = names_view(apps@);
        let ghost nm = name@;
        apps.push(name);
        proof {
            let p = names_view(apps@);
            assert(p =~= old_names.push(nm));
            lemma_offset_push(old_names, nm);
            assert forall|k: int| 0 <= k < p.len() implies #[trigger] name_at(blob@, p, k) by {
                if k < old_names.len() {
                    assert(name_at(blob@, old_names, k));
                    assert(p[k] == old_names[k]);
                } else {
                    assert(p[k] == nm);
                    assert(forall|j: int| 0 <= j < nm.len() ==> nm[j] == blob@[start + j]);
                }
            }
        }
        start = end + 1;
        i = i + 1;
    }
    Some(apps)
}

/// Why the linked applications make no table.
#[derive(Copy, Clone, Debug, PartialEq, Eq, Structural)]
pub enum AppTableError {
    /// No application is linked.
    NoApp,
    /// The name list ends before the last name is terminated.
    NamesCutShort,
    /// The applications are not laid out in increasing order.
    Unordered,
}

/// The bounds are in increasing order.
pub open spec fn bounds_sorted(bounds: Seq<u64>) -> bool {
    forall|i: int| 0 <= i < bounds.len() - 1 ==> bounds[i] <= #[trigger] bounds[i + 1]
}

/// The applications linked into the kernel: their names, and the addresses
/// where their data starts, with one more address after the last.
pub struct AppTable {
    pub names: Vec<Vec<u8>>,
    pub bounds: Vec<u64>,
}

impl AppTable {
    /// One bound more than names, in increasing order.
    pub open spec fn wf(&self) -> bool {
        &&& self.bounds.len() == self.names.len() + 1
        &&& forall|i: int| 0 <= i < self.names.len() ==> self.bounds[i] <= #[trigger] self.bounds[i + 1]
    }

    /// The table of the applications linked with the bounds `bounds` (one
    /// more than there are applications) and the name list `blob`: the
    /// names are the first NUL-terminated strings of `blob`. There must be
    /// at least one application (`NoApp`), a name for each (`NamesCutShort`)
    /// and bounds in increasing order (`Unordered`).
    pub fn from_linked(bounds: Vec<u64>, blob: &[u8]) -> (r: Result<AppTable, AppTableError>)
        ensures
            match r {
                Ok(t) => {
                    &&& bounds@.len() > 1
                    &&& t.bounds@ == bounds@
                    &&& t.names.len() == bounds@.len() - 1
                    &&& names_layout(blob@, names_view(t.names@))
                    &&& bounds_sorted(bounds@)
                    &&& t.wf()
                },
                Err(AppTableError::NoApp) => bounds@.len() <= 1,
                Err(AppTableError::NamesCutShort) => bounds@.len() > 1 && exists|p: Seq<Seq<u8>>|
                    #![trigger names_layout(blob@, p)]
                    p.len() < bounds@.len() - 1 && names_layout(blob@, p) && forall|j: int|
                        name_offset(p, p.len() as int) <= j < blob@.len() ==> blob@[j] != 0,
                Err(AppTableError::Unordered) => bounds@.len() > 1 && !bounds_sorted(bounds@),
            },
    {
        if bounds.len() <= 1 {
            return Err(AppTableError::NoApp);
        }
        let num_app = bounds.len() - 1;
        let names = match gen_app_names_vec(num_app, blob) {
            Some(n) => n,
            None => return Err(AppTableError::NamesCutShort),
        };
        let mut i: usize = 0;
        while i < num_app
            invariant
                num_app == bounds@.len() - 1,
                i <= num_app,
                forall|j: int| 0 <= j < i ==> bounds@[j] <= #[trigger] bounds@[j + 1],
            decreases num_app - i,
        {
            if bounds[i] > bounds[i + 1] {
                return Err(AppTableError::Unordered);
            }
            i = i + 1;
        }
        let t = AppTable { names, bounds };
        proof {
            assert forall|k: int| 0 <= k < t.names.len() implies t.bounds[k] <= #[trigger] t.bounds[k + 1] by {
                assert(t.bounds@[k] <= t.bounds@[k + 1]);
            }
        }
        Ok(t)
    }

    /// The number of applications.
    pub fn get_num_app(&self) -> (r: usize)
        ensures
            r == self.names.len(),
    {
        self.names.len()
    }

    /// The data of application `app_id`: its first address and its length.
    pub fn get_app_data_by_id(&self, app_id: usize) -> (r: (u64, u64))
        requires
            self.wf(),
            app_id < self.names.len(),
        ensures
            r == (self.bounds[app_id as int], (self.bounds[app_id + 1] - self.bounds[app_id as int]) as u64),
    {
        let s = self.bounds[app_id];
        let e = self.bounds[app_id + 1];
        (s, e - s)
    }

    /// The data of the first application named `app_path`, if there is one.
    pub fn get_app_data_by_path(&self, app_path: &[u8]) -> (r: Option<(u64, u64)>)
        requires
            self.wf(),
        ensures
            match r {
                Some(d) => exists|i: int|
                    0 <= i < self.names.len() && #[trigger] self.names[i]@ == app_path@ && (forall|j: int|
                        0 <= j < i ==> self.names[j]@ != app_path@) && d == (
                        self.bounds[i],
                        (self.bounds[i + 1] - self.bounds[i]) as u64,
                    ),
                None => forall|i: int| 0 <= i < self.names.len() ==> #[trigger] self.names[i]@ != app_path@,
            },
    {
        let mut i: usize = 0;
        while i < self.names.len()
            invariant
                self.wf(),
                i <= self.names.len(),
                forall|j: int| 0 <= j < i ==> self.names[j]@ != app_path@,
            decreases self.names.len() - i,
        {
            if bytes_equal(self.names[i].as_slice(), app_path) {
                return Some(self.get_app_data_by_id(i));
            }
            i = i + 1;
        }
        None
    }

    /// The data of the application `app_name` in directory `dir`: the one
    /// whose name is `dir`, a slash, and `app_name`.
    pub fn load_inner_app(&self, dir: &[u8], app_name: &[u8]) -> (r: Option<(u64, u64)>)
        requires
            self.wf(),
        ensures
            r == self.lookup(dir@ + seq![47u8] + app_name@),
    {
        let path = join_path(dir, app_name);
        let r = self.get_app_data_by_path(path.as_slice());
        proof {
            self.lemma_lookup(path@, r);
        }
        r
    }

    /// Where the image of application `app_name` comes from: the built-in
    /// application of that name in directory `dir` if there is one; else the
    /// file `app_name` when it is an absolute path, or else the file of that
    /// name in the working directory `cwd`.
    pub fn load_app(&self, dir: &[u8], app_name: &[u8], cwd: &[u8]) -> (r: AppSource)
        requires
            self.wf(),
        ensures
            match self.lookup(dir@ + seq![47u8] + app_name@) {
                Some(d) => r == AppSource::Inner(d.0, d.1),
                None => r matches AppSource::File(p) && p@ == fs_app_path(cwd@, app_name@),
            },
    {
        match self.load_inner_app(dir, app_name) {
            Some(d) => AppSource::Inner(d.0, d.1),
            None => {
                if app_name.len() > 0 && app_name[0] == 47u8 {
                    let mut path: Vec<u8> = Vec::new();
                    let mut k: usize = 0;
                    while k < app_name.len()
                        invariant
                            k <= app_name.len(),
                            path@ == app_name@.subrange(0, k as int),
                        decreases app_name.len() - k,
                    {
                        path.push(app_name[k]);
                        k = k + 1;
                        assert(path@ =~= app_name@.subrange(0, k as int));
                    }
                    assert(app_name@.subrange(0, app_name@.len() as int) =~= app_name@);
                    AppSource::File(path)
                } else {
                    AppSource::File(join_path(cwd, app_name))
                }
            },
        }
    }

    /// What a search for `path` finds: the data of the first application of
    /// that name, if there is one.
    pub open spec fn lookup(&self, path: Seq<u8>) -> Option<(u64, u64)> {
        if exists|i: int| 0 <= i < self.names.len() && #[trigger] self.names[i]@ == path {
            let i = choose|i: int|
                0 <= i < self.names.len() && #[trigger] self.names[i]@ == path && forall|j: int|
                    0 <= j < i ==> self.names[j]@ != path;
            Some((self.bounds[i], (self.bounds[i + 1] - self.bounds[i]) as u64))
        } else {
            None
        }
    }

    /// The search result of `get_app_data_by_path` is `lookup`.
    proof fn lemma_lookup(&self, path: Seq<u8>, r: Option<(u64, u64)>)
        requires
            match r {
                Some(d) => exists|i: int|
                    0 <= i < self.names.len() && #[trigger] self.names[i]@ == path && (forall|j: int|
                        0 <= j < i ==> self.names[j]@ != path) && d == (
                        self.bounds[i],
                        (self.bounds[i + 1] - self.bounds[i]) as u64,
                    ),
                None => forall|i: int| 0 <= i < self.names.len() ==> #[trigger] self.names[i]@ != path,
            },
        ensures
            r == self.lookup(path),
    {
        if let Some(d) = r {
            let i = choose|i: int|
                0 <= i < self.names.len() && #[trigger] self.names[i]@ == path && (forall|j: int|
                    0 <= j < i ==> self.names[j]@ != path) && d == (
                    self.bounds[i],
                    (self.bounds[i + 1] - self.bounds[i]) as u64,
                );
            let c = choose|i: int|
                0 <= i < self.names.len() && #[trigger] self.names[i]@ == path && forall|j: int|
                    0 <= j < i ==> self.names[j]@ != path;
            assert(c == i) by {
                if c < i {
                    assert(self.names[c]@ != path);
                }
                if i < c {
                    assert(self.names[i]@ != path);
                }
            }
        }
    }
}

/// Where an application's image comes from.
pub enum AppSource {
    /// Built into the kernel: its start address and length.
    Inner(u64, u64),
    /// The file at this path, to be read from the file system.
    File(Vec<u8>),
}

/// The file an application name refers to: itself when it starts with a
/// slash, else the name in the working directory `cwd`.
pub open spec fn fs_app_path(cwd: Seq<u8>, name: Seq<u8>) -> Seq<u8> {
    if name.len() > 0 && name[0] == 47u8 {
        name
    } else {
        cwd + seq![47u8] + name
    }
}

/// `dir`, a slash, and `name`.
fn join_path(dir: &[u8], name: &[u8]) -> (r: Vec<u8>)
    ensures
        r@ == dir@ + seq![47u8] + name@,
{
    let mut path: Vec<u8> = Vec::new();
    let mut k: usize = 0;
    while k < dir.len()
        invariant
            k <= dir.len(),
            path@ == dir@.subrange(0, k as int),
        decreases dir.len() - k,
    {
        path.push(dir[k]);
        k = k + 1;
        assert(path@ =~= dir@.subrange(0, k as int));
    }
    path.push(47u8);
    k = 0;
    while k < name.len()
        invariant
            k <= name.len(),
            path@ == dir@ + seq![47u8] + name@.subrange(0, k as int),
        decreases name.len() - k,
    {
        path.push(name[k]);
        k = k + 1;
        assert(path@ =~= dir@ + seq![47u8] + name@.subrange(0, k as int));
    }
    assert(name@.subrange(0, name@.len() as int) =~= name@);
    path
}

/// Whether two byte strings are equal.
pub fn bytes_equal(a: &[u8], b: &[u8]) -> (r: bool)
    ensures
        r == (a@ == b@),
{
    if a.len() != b.len() {
        return false;
    }
    let mut i: usize = 0;
    while i < a.len()
        invariant
            a.len() == b.len(),
            i <= a.len(),
            forall|j: int| 0 <= j < i ==> a@[j] == b@[j],
        decreases a.len() - i,
    {
        if a[i] != b[i] {
            return false;
        }
        i = i + 1;
    }
    assert(a@ =~= b@);
    true
}

} // verus!
