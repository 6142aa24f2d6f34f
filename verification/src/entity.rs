//! The application payload a node carries: a short display string
//! ("face"), a longer annotation ("bubble") and a process status.

use vstd::prelude::*;
use vstd::string::StringExecFns;

verus! {

/// The progress marker a payload carries.
#[derive(Clone, Copy, Debug, PartialEq, Eq, Structural)]
pub enum ProcessStatus {
    Done,
    Marching,
    Pending,
    Planning,
    New,
}

impl ProcessStatus {
    /// The canonical name of the status.
    pub open spec fn spec_type_str(self) -> Seq<char> {
        match self {
            ProcessStatus::Done => "Done"@,
            ProcessStatus::Marching => "Marching"@,
            ProcessStatus::Pending => "Pending"@,
            ProcessStatus::Planning => "Planning"@,
            ProcessStatus::New => "New"@,
        }
    }

    pub fn type_str(&self) -> (r: String)
        ensures
            r@ == self.spec_type_str(),
    {
        match self {
            ProcessStatus::Done => "Done".to_owned(),
            ProcessStatus::Marching => "Marching".to_owned(),
            ProcessStatus::Pending => "Pending".to_owned(),
            ProcessStatus::Planning => "Planning".to_owned(),
            ProcessStatus::New => "New".to_owned(),
        }
    }

    /// The status a name denotes; an unrecognised name denotes `New`.
    pub open spec fn spec_reflect(name: Seq<char>) -> ProcessStatus {
        if name == "Done"@ {
            ProcessStatus::Done
        } else if name == "Marching"@ {
            ProcessStatus::Marching
        } else if name == "Pending"@ {
            ProcessStatus::Pending
        } else if name == "Planning"@ {
            ProcessStatus::Planning
        } else {
            ProcessStatus::New
        }
    }

    pub fn reflect(name: &str) -> (r: Self)
        ensures
            r == Self::spec_reflect(name@),
    {
        let owned = name.to_owned();
        if owned == "Done".to_owned() {
            ProcessStatus::Done
        } else if owned == "Marching".to_owned() {
            ProcessStatus::Marching
        } else if owned == "Pending".to_owned() {
            ProcessStatus::Pending
        } else if owned == "Planning".to_owned() {
            ProcessStatus::Planning
        } else {
            ProcessStatus::New
        }
    }

    /// Every status, least progressed first.
    pub fn vec_all() -> (r: Vec<Self>)
        ensures
            r@ == seq![
                ProcessStatus::New,
                ProcessStatus::Planning,
                ProcessStatus::Pending,
                ProcessStatus::Marching,
                ProcessStatus::Done,
            ],
    {
        let mut v: Vec<ProcessStatus> = Vec::new();
        v.push(ProcessStatus::New);
        v.push(ProcessStatus::Planning);
        v.push(ProcessStatus::Pending);
        v.push(ProcessStatus::Marching);
        v.push(ProcessStatus::Done);
        proof {
            assert(v@ =~= seq![
                ProcessStatus::New,
                ProcessStatus::Planning,
                ProcessStatus::Pending,
                ProcessStatus::Marching,
                ProcessStatus::Done,
            ]);
        }
        v
    }

    /// The icon path of the status.
    pub open spec fn spec_type_src(self) -> Seq<char> {
        "static/icons/Process/"@ + self.spec_type_str() + ".svg"@
    }

    pub fn type_src(&self) -> (r: String)
        ensures
            r@ == self.spec_type_src(),
    {
        let mut s = String::from_str("static/icons/Process/");
        s.append(self.type_str().as_str());
        s.append(".svg");
        s
    }
}

/// The payload of one node.  The id is produced by the owning document
/// and stays stable for the payload's lifetime.
#[derive(Clone, Debug)]
pub struct Entity {
    pub id: u64,
    pub face: String,
    pub bubble: String,
    pub process: ProcessStatus,
}

impl Entity {
    /// The default payload under a caller-supplied identity.
    pub fn with_id(id: u64) -> (r: Self)
        ensures
            r.id == id,
            r.face@ == Seq::<char>::empty(),
            r.bubble@ == Seq::<char>::empty(),
            r.process == ProcessStatus::New,
    {
        Entity {
            id,
            face: String::new(),
            bubble: String::new(),
            process: ProcessStatus::New,
        }
    }

    pub fn id(&self) -> (r: u64)
        ensures
            r == self.id,
    {
        self.id
    }

    /// A field-for-field copy.
    pub fn duplicate(&self) -> (r: Self)
        ensures
            r == *self,
    {
        Entity {
            id: self.id,
            face: self.face.clone(),
            bubble: self.bubble.clone(),
            process: self.process,
        }
    }

    pub fn face(&self) -> (r: &String)
        ensures
            r == &self.face,
    {
        &self.face
    }

    pub fn set_face(&mut self, face: String)
        ensures
            *final(self) == (Entity { face, ..*old(self) }),
    {
        self.face = face;
    }

    pub fn bubble(&self) -> (r: &String)
        ensures
            r == &self.bubble,
    {
        &self.bubble
    }

    pub fn set_bubble(&mut self, bubble: String)
        ensures
            *final(self) == (Entity { bubble, ..*old(self) }),
    {
        self.bubble = bubble;
    }

    pub fn process(&self) -> (r: &ProcessStatus)
        ensures
            r == &self.process,
    {
        &self.process
    }

    pub fn set_process(&mut self, process: ProcessStatus)
        ensures
            *final(self) == (Entity { process, ..*old(self) }),
    {
        self.process = process;
    }
}

impl Default for Entity {
    /// The default payload under the null identity.
    fn default() -> (r: Self)
        ensures
            r.id == 0,
            r.face@ == Seq::<char>::empty(),
            r.bubble@ == Seq::<char>::empty(),
            r.process == ProcessStatus::New,
    {
        Entity::with_id(0)
    }
}

} // verus!
