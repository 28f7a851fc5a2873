use vstd::prelude::*;

verus! {

/// The fields a camera description may give.
#[derive(Clone, Copy, Debug, PartialEq, Eq, Structural)]
pub enum CameraField {
    Fov,
    Position,
    Target,
    Up,
}

/// Why a camera description is refused.
#[derive(Clone, Copy, Debug, PartialEq, Eq, Structural)]
pub enum CameraFieldError {
    /// The field is given more than once.
    DuplicateField(CameraField),
    /// The field is required and not given.
    MissingField(CameraField),
}

impl CameraField {
    /// The field's name in a scene description.
    pub fn name(self) -> (name: &'static str)
        ensures
            name@ == match self {
                CameraField::Fov => "fov"@,
                CameraField::Position => "position"@,
                CameraField::Target => "target"@,
                CameraField::Up => "up"@,
            },
    {
        match self {
            CameraField::Fov => "fov",
            CameraField::Position => "position",
            CameraField::Target => "target",
            CameraField::Up => "up",
        }
    }
}

/// The camera fields read so far from a description. The position must be
/// given; the field of view, target and up direction have defaults.
#[derive(Clone, Copy, Debug, PartialEq, Eq, Structural)]
pub struct CameraFieldsSeen {
    pub fov: bool,
    pub position: bool,
    pub target: bool,
    pub up: bool,
}

impl CameraFieldsSeen {
    /// Whether `field` has been read.
    pub open spec fn has(self, field: CameraField) -> bool {
        match field {
            CameraField::Fov => self.fov,
            CameraField::Position => self.position,
            CameraField::Target => self.target,
            CameraField::Up => self.up,
        }
    }

    /// No field read yet.
    pub fn new() -> (seen: CameraFieldsSeen)
        ensures
            forall|field: CameraField| !(#[trigger] seen.has(field)),
    {
        CameraFieldsSeen { fov: false, position: false, target: false, up: false }
    }

    /// Reads the key `field`: refused if the field was read before, recorded otherwise.
    pub fn accept(&mut self, field: CameraField) -> (result: Result<(), CameraFieldError>)
        ensures
            old(self).has(field) ==> result == Err::<(), CameraFieldError>(
                CameraFieldError::DuplicateField(field),
            ) && *final(self) == *old(self),
            !old(self).has(field) ==> result is Ok && final(self).has(field) && forall|other: CameraField|
                other != field ==> #[trigger] final(self).has(other) == old(self).has(other),
    {
        let seen = match field {
            CameraField::Fov => self.fov,
            CameraField::Position => self.position,
            CameraField::Target => self.target,
            CameraField::Up => self.up,
        };
        if seen {
            return Err(CameraFieldError::DuplicateField(field));
        }
        match field {
            CameraField::Fov => self.fov = true,
            CameraField::Position => self.position = true,
            CameraField::Target => self.target = true,
            CameraField::Up => self.up = true,
        }
        Ok(())
    }

    /// Ends the description: refused if the position was never given.
    pub fn finish(&self) -> (result: Result<(), CameraFieldError>)
        ensures
            result == if self.has(CameraField::Position) {
                Ok::<(), CameraFieldError>(())
            } else {
                Err(CameraFieldError::MissingField(CameraField::Position))
            },
    {
        if self.position {
            Ok(())
        } else {
            Err(CameraFieldError::MissingField(CameraField::Position))
        }
    }
}

/// The fields read after accepting `keys` one by one, or the first refusal.
pub open spec fn accept_all(seen: CameraFieldsSeen, keys: Seq<CameraField>) -> Result<CameraFieldsSeen, CameraFieldError>
    decreases keys.len(),
{
    if keys.len() == 0 {
        Ok(seen)
    } else if seen.has(keys[0]) {
        Err(CameraFieldError::DuplicateField(keys[0]))
    } else {
        let next = match keys[0] {
            CameraField::Fov => CameraFieldsSeen { fov: true, ..seen },
            CameraField::Position => CameraFieldsSeen { position: true, ..seen },
            CameraField::Target => CameraFieldsSeen { target: true, ..seen },
            CameraField::Up => CameraFieldsSeen { up: true, ..seen },
        };
        accept_all(next, keys.drop_first())
    }
}

/// A description read from scratch is accepted exactly when no field is
/// given twice, and then every field given, and no other, counts as read.
pub proof fn lemma_descriptions_without_repeats_are_accepted(seen: CameraFieldsSeen, keys: Seq<CameraField>)
    requires
        forall|field: CameraField| keys.contains(field) ==> !(#[trigger] seen.has(field)),
    ensures
        accept_all(seen, keys) is Ok <==> keys.no_duplicates(),
        accept_all(seen, keys) matches Ok(done) ==> forall|field: CameraField|
            #[trigger] done.has(field) == (seen.has(field) || keys.contains(field)),
    decreases keys.len(),
{
    if keys.len() > 0 {
        let k = keys[0];
        let next = match k {
            CameraField::Fov => CameraFieldsSeen { fov: true, ..seen },
            CameraField::Position => CameraFieldsSeen { position: true, ..seen },
            CameraField::Target => CameraFieldsSeen { target: true, ..seen },
            CameraField::Up => CameraFieldsSeen { up: true, ..seen },
        };
        let rest = keys.drop_first();
        assert(keys.contains(k));
        if rest.contains(k) {
            let j = choose|j: int| 0 <= j < rest.len() && rest[j] == k;
            assert(keys[j + 1] == k);
            assert(!keys.no_duplicates());
            lemma_repeat_refused(next, rest, j);
        } else {
            assert forall|field: CameraField| rest.contains(field) implies !(#[trigger] next.has(field)) by {
                let j = choose|j: int| 0 <= j < rest.len() && rest[j] == field;
                assert(keys[j + 1] == field);
                assert(keys.contains(field));
                assert(field != k);
                assert(next.has(field) == seen.has(field));
            }
            lemma_descriptions_without_repeats_are_accepted(next, rest);
            assert(keys.no_duplicates() <==> rest.no_duplicates()) by {
                if rest.no_duplicates() {
                    assert forall|a: int, b: int|
                        0 <= a < keys.len() && 0 <= b < keys.len() && a != b implies keys[a] != keys[b] by {
                        if a == 0 && b > 0 {
                            assert(rest[b - 1] == keys[b]);
                        } else if b == 0 && a > 0 {
                            assert(rest[a - 1] == keys[a]);
                        } else if a > 0 && b > 0 {
                            assert(rest[a - 1] == keys[a]);
                            assert(rest[b - 1] == keys[b]);
                        }
                    }
                }
                if keys.no_duplicates() {
                    assert forall|a: int, b: int|
                        0 <= a < rest.len() && 0 <= b < rest.len() && a != b implies rest[a] != rest[b] by {
                        assert(keys[a + 1] == rest[a]);
                        assert(keys[b + 1] == rest[b]);
                    }
                }
            }
            assert forall|field: CameraField| rest.contains(field) implies keys.contains(field) by {
                let j = choose|j: int| 0 <= j < rest.len() && rest[j] == field;
                assert(keys[j + 1] == field);
            }
            assert forall|field: CameraField| keys.contains(field) && field != k implies rest.contains(field) by {
                let j = choose|j: int| 0 <= j < keys.len() && keys[j] == field;
                assert(rest[j - 1] == field);
            }
        }
    }
}

proof fn lemma_repeat_refused(seen: CameraFieldsSeen, keys: Seq<CameraField>, j: int)
    requires
        0 <= j < keys.len(),
        seen.has(keys[j]),
    ensures
        accept_all(seen, keys) is Err,
    decreases keys.len(),
{
    if !seen.has(keys[0]) {
        let next = match keys[0] {
            CameraField::Fov => CameraFieldsSeen { fov: true, ..seen },
            CameraField::Position => CameraFieldsSeen { position: true, ..seen },
            CameraField::Target => CameraFieldsSeen { target: true, ..seen },
            CameraField::Up => CameraFieldsSeen { up: true, ..seen },
        };
        assert(j > 0);
        assert(keys.drop_first()[j - 1] == keys[j]);
        lemma_repeat_refused(next, keys.drop_first(), j - 1);
    }
}

} // verus!
