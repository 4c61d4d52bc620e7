//! The system identification returned by `uname`.
use vstd::prelude::*;
use vstd::string::StringSliceAdditionalSpecFns;

verus! {

/// One NUL-padded name field of [`utsname`].
#[derive(Clone, Copy)]
pub struct NameField(pub [u8; 65]);

impl NameField {
    /// Copy `data` into the start of the field; the rest of the field stays as it was.
    pub fn assign_bytes(&mut self, data: &[u8])
        requires
            data@.len() <= 65,
        ensures
            final(self).0@ == data@ + old(self).0@.skip(data@.len() as int),
    {
        let mut i: usize = 0;
        while i < data.len()
            invariant
                data@.len() <= 65,
                i <= data@.len(),
                self.0@.len() == 65,
                forall|j: int| 0 <= j < i ==> #[trigger] self.0@[j] == data@[j],
                forall|j: int| i <= j < 65 ==> #[trigger] self.0@[j] == old(self).0@[j],
            decreases data@.len() - i,
        {
            self.0[i] = data[i];
            i = i + 1;
        }
        assert(self.0@ =~= data@ + old(self).0@.skip(data@.len() as int));
    }

    /// Copy the UTF-8 bytes of `data` into the start of the field.
    pub fn assign(&mut self, data: &str)
        requires
            data.spec_bytes().len() <= 65,
        ensures
            final(self).0@ == data.spec_bytes() + old(self).0@.skip(data.spec_bytes().len() as int),
    {
        self.assign_bytes(data.as_bytes());
    }
}

impl Default for NameField {
    fn default() -> (r: Self)
        ensures
            r.0@ == Seq::new(65, |i: int| 0u8),
    {
        let r = NameField([0u8; 65]);
        assert(r.0@ =~= Seq::new(65, |i: int| 0u8));
        r
    }
}

/// System identification: names of the operating system, the node, the release, the version,
/// the machine and the domain.
#[derive(Clone, Copy)]
#[allow(non_camel_case_types)]
pub struct utsname {
    /// Operating system name.
    pub sysname: NameField,
    /// Network node name.
    pub nodename: NameField,
    /// Release number and variant.
    pub release: NameField,
    /// Build date and metadata.
    pub version: NameField,
    /// Architecture name.
    pub machine: NameField,
    /// NIS or YP domain name.
    pub domainname: NameField,
}

impl Default for utsname {
    fn default() -> (r: Self)
        ensures
            r.sysname.0@ == Seq::new(65, |i: int| 0u8),
            r.nodename.0@ == Seq::new(65, |i: int| 0u8),
            r.release.0@ == Seq::new(65, |i: int| 0u8),
            r.version.0@ == Seq::new(65, |i: int| 0u8),
            r.machine.0@ == Seq::new(65, |i: int| 0u8),
            r.domainname.0@ == Seq::new(65, |i: int| 0u8),
    {
        utsname {
            sysname: NameField::default(),
            nodename: NameField::default(),
            release: NameField::default(),
            version: NameField::default(),
            machine: NameField::default(),
            domainname: NameField::default(),
        }
    }
}

} // verus!
