//! The closed set of resource kinds a project can hold, along with the
//! on-disk directory segment each kind serializes under.

use vstd::prelude::*;

verus! {

/// Every kind of resource a project can contain. The set is closed: per-kind
/// behavior is selected by this tag rather than by open registration.
#[derive(Debug, PartialEq, Eq, Structural, Copy, Clone)]
pub enum Resource {
    Sprite,
    Script,
    Object,
    Note,
    Shader,
    // resources the engine tracks but does not yet manipulate
    AnimationCurve,
    Extension,
    Font,
    Path,
    Sequence,
    Sound,
    TileSet,
    Timeline,
}

/// The number of variants of [`Resource`].
pub const RESOURCE_KIND_COUNT: usize = 13;

impl Resource {
    /// A dense index for this kind, used to address the per-kind resource
    /// handlers. Always below [`RESOURCE_KIND_COUNT`].
    pub open spec fn spec_index_of(self) -> int {
        match self {
            Resource::Sprite => 0,
            Resource::Script => 1,
            Resource::Object => 2,
            Resource::Note => 3,
            Resource::Shader => 4,
            Resource::AnimationCurve => 5,
            Resource::Extension => 6,
            Resource::Font => 7,
            Resource::Path => 8,
            Resource::Sequence => 9,
            Resource::Sound => 10,
            Resource::TileSet => 11,
            Resource::Timeline => 12,
        }
    }

    /// Executable twin of [`Self::spec_index_of`].
    #[verifier::when_used_as_spec(spec_index_of_usize)]
    pub fn index_of(self) -> (r: usize)
        ensures
            r == self.spec_index_of(),
            r < RESOURCE_KIND_COUNT,
    {
        match self {
            Resource::Sprite => 0,
            Resource::Script => 1,
            Resource::Object => 2,
            Resource::Note => 3,
            Resource::Shader => 4,
            Resource::AnimationCurve => 5,
            Resource::Extension => 6,
            Resource::Font => 7,
            Resource::Path => 8,
            Resource::Sequence => 9,
            Resource::Sound => 10,
            Resource::TileSet => 11,
            Resource::Timeline => 12,
        }
    }

    pub open spec fn spec_index_of_usize(self) -> usize {
        self.spec_index_of() as usize
    }

    /// The kind whose dense index is `idx`: the inverse of [`Self::index_of`].
    pub open spec fn spec_of_index(idx: int) -> Resource {
        if idx == 0 {
            Resource::Sprite
        } else if idx == 1 {
            Resource::Script
        } else if idx == 2 {
            Resource::Object
        } else if idx == 3 {
            Resource::Note
        } else if idx == 4 {
            Resource::Shader
        } else if idx == 5 {
            Resource::AnimationCurve
        } else if idx == 6 {
            Resource::Extension
        } else if idx == 7 {
            Resource::Font
        } else if idx == 8 {
            Resource::Path
        } else if idx == 9 {
            Resource::Sequence
        } else if idx == 10 {
            Resource::Sound
        } else if idx == 11 {
            Resource::TileSet
        } else {
            Resource::Timeline
        }
    }

    /// Executable twin of [`Self::spec_of_index`].
    pub fn of_index(idx: usize) -> (r: Resource)
        requires
            idx < RESOURCE_KIND_COUNT,
        ensures
            r == Resource::spec_of_index(idx as int),
            r.spec_index_of() == idx,
    {
        if idx == 0 {
            Resource::Sprite
        } else if idx == 1 {
            Resource::Script
        } else if idx == 2 {
            Resource::Object
        } else if idx == 3 {
            Resource::Note
        } else if idx == 4 {
            Resource::Shader
        } else if idx == 5 {
            Resource::AnimationCurve
        } else if idx == 6 {
            Resource::Extension
        } else if idx == 7 {
            Resource::Font
        } else if idx == 8 {
            Resource::Path
        } else if idx == 9 {
            Resource::Sequence
        } else if idx == 10 {
            Resource::Sound
        } else if idx == 11 {
            Resource::TileSet
        } else {
            Resource::Timeline
        }
    }

    /// The directory segment this kind of resource serializes under.
    pub fn subpath_name(&self) -> (r: &'static str)
        ensures
            r@ == self.spec_subpath_name(),
    {
        let r = match self {
            Resource::Sprite => "sprites",
            Resource::Script => "scripts",
            Resource::Object => "objects",
            Resource::Note => "notes",
            Resource::Shader => "shaders",
            Resource::AnimationCurve => "animcurves",
            Resource::Extension => "extensions",
            Resource::Font => "fonts",
            Resource::Path => "paths",
            Resource::Sequence => "sequences",
            Resource::Sound => "sounds",
            Resource::TileSet => "tilesets",
            Resource::Timeline => "timelines",
        };
        proof {
            Self::lemma_subpath_names_revealed();
        }
        r
    }

    /// What [`Self::subpath_name`] returns, as a sequence of characters.
    pub open spec fn spec_subpath_name(self) -> Seq<char> {
        match self {
            Resource::Sprite => "sprites"@,
            Resource::Script => "scripts"@,
            Resource::Object => "objects"@,
            Resource::Note => "notes"@,
            Resource::Shader => "shaders"@,
            Resource::AnimationCurve => "animcurves"@,
            Resource::Extension => "extensions"@,
            Resource::Font => "fonts"@,
            Resource::Path => "paths"@,
            Resource::Sequence => "sequences"@,
            Resource::Sound => "sounds"@,
            Resource::TileSet => "tilesets"@,
            Resource::Timeline => "timelines"@,
        }
    }

    /// Reveals every subpath literal, so that distinct kinds are known to
    /// have distinct subpath names.
    pub proof fn lemma_subpath_names_revealed()
        ensures
            forall|a: Resource, b: Resource|
                a.spec_subpath_name() == b.spec_subpath_name() ==> a == b,
    {
        reveal_strlit("sprites");
        reveal_strlit("scripts");
        reveal_strlit("objects");
        reveal_strlit("notes");
        reveal_strlit("shaders");
        reveal_strlit("animcurves");
        reveal_strlit("extensions");
        reveal_strlit("fonts");
        reveal_strlit("paths");
        reveal_strlit("sequences");
        reveal_strlit("sounds");
        reveal_strlit("tilesets");
        reveal_strlit("timelines");
        assert forall|a: Resource, b: Resource|
            a.spec_subpath_name() == b.spec_subpath_name() implies a == b by {
            if a != b {
                assert(a.spec_subpath_name().len() != b.spec_subpath_name().len()
                    || a.spec_subpath_name()[0] != b.spec_subpath_name()[0]
                    || a.spec_subpath_name()[1] != b.spec_subpath_name()[1]
                    || a.spec_subpath_name()[2] != b.spec_subpath_name()[2]
                    || a.spec_subpath_name()[3] != b.spec_subpath_name()[3]);
            }
        }
    }

    /// The kind whose directory segment is `subpath`, if any: the inverse of
    /// [`Self::subpath_name`].
    pub fn parse_subpath(subpath: &str) -> (r: Option<Resource>)
        ensures
            match r {
                Some(kind) => kind.spec_subpath_name() == subpath@,
                None => forall|kind: Resource| kind.spec_subpath_name() != subpath@,
            },
    {
        let candidates: [Resource; 13] = [
            Resource::Sprite,
            Resource::Script,
            Resource::Object,
            Resource::Note,
            Resource::Shader,
            Resource::AnimationCurve,
            Resource::Extension,
            Resource::Font,
            Resource::Path,
            Resource::Sequence,
            Resource::Sound,
            Resource::TileSet,
            Resource::Timeline,
        ];
        let mut i: usize = 0;
        while i < 13
            invariant
                i <= 13,
                forall|j: int| 0 <= j < 13 ==> candidates[j] == Resource::spec_of_index(j),
                forall|j: int| 0 <= j < i ==> #[trigger] Resource::spec_of_index(
                    j,
                ).spec_subpath_name() != subpath@,
            decreases 13 - i,
        {
            let kind = candidates[i];
            if str_eq(kind.subpath_name(), subpath) {
                return Some(kind);
            }
            i += 1;
        }
        proof {
            assert forall|kind: Resource| kind.spec_subpath_name() != subpath@ by {
                assert(Resource::spec_of_index(kind.spec_index_of()) == kind);
            }
        }
        None
    }

    /// Whether the engine's command surface can manipulate this kind of
    /// resource.
    pub fn can_manipulate(&self) -> (r: bool)
        ensures
            r == self.spec_can_manipulate(),
    {
        match self {
            Resource::Sprite
            | Resource::Script
            | Resource::Object
            | Resource::Note
            | Resource::Shader => true,
            Resource::AnimationCurve
            | Resource::Extension
            | Resource::Font
            | Resource::Path
            | Resource::Sequence
            | Resource::Sound
            | Resource::TileSet
            | Resource::Timeline => false,
        }
    }

    /// What [`Self::can_manipulate`] returns.
    pub open spec fn spec_can_manipulate(self) -> bool {
        match self {
            Resource::Sprite
            | Resource::Script
            | Resource::Object
            | Resource::Note
            | Resource::Shader => true,
            _ => false,
        }
    }
}

/// Compares two string slices by contents.
pub fn str_eq(a: &str, b: &str) -> (r: bool)
    ensures
        r == (a@ == b@),
{
    let a_owned: String = a.to_owned();
    let b_owned: String = b.to_owned();
    a_owned == b_owned
}

} // verus!
