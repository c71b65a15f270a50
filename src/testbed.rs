//! Testbeds: the named environments that reports are run on.
use vstd::prelude::*;

verus! {

/// A testbed as its creator describes it.
#[derive(Clone, Debug)]
pub struct JsonNewTestbed {
    pub name: String,
    pub slug: Option<String>,
    pub os_name: Option<String>,
    pub os_version: Option<String>,
    pub runtime_name: Option<String>,
    pub runtime_version: Option<String>,
    pub cpu: Option<String>,
    pub ram: Option<String>,
    pub disk: Option<String>,
}

/// A testbed ready to be stored.
#[derive(Clone, Debug)]
pub struct InsertTestbed {
    pub uuid: String,
    pub project_id: u64,
    pub name: String,
    pub slug: String,
    pub os_name: Option<String>,
    pub os_version: Option<String>,
    pub runtime_name: Option<String>,
    pub runtime_version: Option<String>,
    pub cpu: Option<String>,
    pub ram: Option<String>,
    pub disk: Option<String>,
}

/// A stored testbed.
#[derive(Clone, Debug)]
pub struct QueryTestbed {
    pub id: usize,
    pub uuid: String,
    pub project_id: u64,
    pub name: String,
    pub slug: String,
    pub os_name: Option<String>,
    pub os_version: Option<String>,
    pub runtime_name: Option<String>,
    pub runtime_version: Option<String>,
    pub cpu: Option<String>,
    pub ram: Option<String>,
    pub disk: Option<String>,
}

pub open spec fn is_lower_hex(c: char) -> bool {
    ('0' <= c && c <= '9') || ('a' <= c && c <= 'f')
}

/// `s` is a version-4 UUID in lowercase hyphenated form: 32 hex digits in
/// groups of 8, 4, 4, 4 and 12, the version digit `4`, and a variant digit
/// of `8`, `9`, `a` or `b`.
pub open spec fn is_uuid_v4_text(s: Seq<char>) -> bool {
    &&& s.len() == 36
    &&& forall|i: int|
        0 <= i < 36 ==> if i == 8 || i == 13 || i == 18 || i == 23 {
            #[trigger] s[i] == '-'
        } else {
            is_lower_hex(s[i])
        }
    &&& s[14] == '4'
    &&& (s[19] == '8' || s[19] == '9' || s[19] == 'a' || s[19] == 'b')
}

/// Relies on `uuid::Uuid::new_v4` and its `Display`: a random UUID whose
/// version bits are 4 and variant bits `10`, written as lowercase hyphenated
/// hex (36 characters).
#[verifier::external_body]
fn new_uuid() -> (r: String)
    ensures
        is_uuid_v4_text(r@),
{
    uuid::Uuid::new_v4().to_string()
}

impl InsertTestbed {
    /// A new testbed of `project_id` with a fresh UUID; without a slug of its
    /// own it takes its name as slug.
    pub fn from_json(project_id: u64, testbed: JsonNewTestbed) -> (r: InsertTestbed)
        ensures
            is_uuid_v4_text(r.uuid@),
            r.project_id == project_id,
            r.name@ == testbed.name@,
            r.slug@ == match testbed.slug {
                Some(s) => s@,
                None => testbed.name@,
            },
            r.os_name == testbed.os_name,
            r.os_version == testbed.os_version,
            r.runtime_name == testbed.runtime_name,
            r.runtime_version == testbed.runtime_version,
            r.cpu == testbed.cpu,
            r.ram == testbed.ram,
            r.disk == testbed.disk,
    {
        let slug = match testbed.slug {
            Some(s) => s,
            None => testbed.name.clone(),
        };
        InsertTestbed {
            uuid: new_uuid(),
            project_id,
            name: testbed.name,
            slug,
            os_name: testbed.os_name,
            os_version: testbed.os_version,
            runtime_name: testbed.runtime_name,
            runtime_version: testbed.runtime_version,
            cpu: testbed.cpu,
            ram: testbed.ram,
            disk: testbed.disk,
        }
    }
}

/// The testbed table.
pub struct Testbeds {
    pub rows: Vec<QueryTestbed>,
}

/// Each row's id is its position.
pub open spec fn ids_are_positions(rows: Seq<QueryTestbed>) -> bool {
    forall|i: int| 0 <= i < rows.len() ==> (#[trigger] rows[i]).id == i
}

impl Testbeds {
    pub fn new() -> (r: Testbeds)
        ensures
            r.rows@.len() == 0,
    {
        Testbeds { rows: Vec::new() }
    }

    /// Stores `t` and returns its id.
    pub fn insert(&mut self, t: InsertTestbed) -> (r: usize)
        requires
            ids_are_positions(old(self).rows@),
        ensures
            ids_are_positions(final(self).rows@),
            r == old(self).rows@.len(),
            final(self).rows@ == old(self).rows@.push(
                QueryTestbed {
                    id: r,
                    uuid: t.uuid,
                    project_id: t.project_id,
                    name: t.name,
                    slug: t.slug,
                    os_name: t.os_name,
                    os_version: t.os_version,
                    runtime_name: t.runtime_name,
                    runtime_version: t.runtime_version,
                    cpu: t.cpu,
                    ram: t.ram,
                    disk: t.disk,
                },
            ),
    {
        let id = self.rows.len();
        self.rows.push(
            QueryTestbed {
                id,
                uuid: t.uuid,
                project_id: t.project_id,
                name: t.name,
                slug: t.slug,
                os_name: t.os_name,
                os_version: t.os_version,
                runtime_name: t.runtime_name,
                runtime_version: t.runtime_version,
                cpu: t.cpu,
                ram: t.ram,
                disk: t.disk,
            },
        );
        id
    }

    /// The id of the testbed with this UUID.
    pub fn get_id(&self, uuid: &String) -> (r: Option<usize>)
        ensures
            match r {
                Some(i) => i < self.rows@.len() && self.rows@[i as int].uuid@ == uuid@,
                None => forall|i: int| 0 <= i < self.rows@.len() ==> (#[trigger] self.rows@[i]).uuid@ != uuid@,
            },
    {
        let mut i: usize = 0;
        while i < self.rows.len()
            invariant
                i <= self.rows.len(),
                forall|j: int| 0 <= j < i ==> (#[trigger] self.rows@[j]).uuid@ != uuid@,
            decreases self.rows.len() - i,
        {
            if self.rows[i].uuid.eq(uuid) {
                return Some(i);
            }
            i = i + 1;
        }
        None
    }

    /// The UUID of testbed `id`.
    pub fn get_uuid(&self, id: usize) -> (r: Option<String>)
        ensures
            id < self.rows@.len() ==> (r matches Some(u) && u@ == self.rows@[id as int].uuid@),
            id >= self.rows@.len() ==> r is None,
    {
        if id < self.rows.len() {
            Some(self.rows[id].uuid.clone())
        } else {
            None
        }
    }
}

} // verus!
