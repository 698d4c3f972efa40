use vstd::prelude::*;

verus! {

/// What the runner of a list of migrations does next.
#[derive(Clone, Copy, Debug, PartialEq, Eq, Structural)]
pub enum MigrationStep {
    /// Every migration of the list has been applied.
    Finished,
    /// The migration with this id is marked to be skipped.
    Skip { id: i64 },
    /// The migration at `index` is to be run, in a transaction that also
    /// records `id` as applied.
    Run { index: usize, id: i64 },
}

/// The text with which a migration that is to be skipped begins: `-- SKIP`.
pub open spec fn skip_marker() -> Seq<u8> {
    seq![0x2du8, 0x2du8, 0x20u8, 0x53u8, 0x4bu8, 0x49u8, 0x50u8]
}

/// A migration is skipped when its text begins with the skip marker.
pub open spec fn is_skip(migration: Seq<u8>) -> bool {
    migration.len() >= 7 && migration.take(7) == skip_marker()
}

/// The texts of the migrations.
pub open spec fn texts(migrations: Seq<Vec<u8>>) -> Seq<Seq<u8>> {
    migrations.map_values(|m: Vec<u8>| m@)
}

/// The step that follows when the first `current` migrations of the list have
/// been applied. Migration ids start at 1: the migration at index `i` has the
/// id `i + 1`.
pub open spec fn step_of(migrations: Seq<Seq<u8>>, current: usize) -> MigrationStep {
    if current >= migrations.len() {
        MigrationStep::Finished
    } else if is_skip(migrations[current as int]) {
        MigrationStep::Skip { id: (current + 1) as i64 }
    } else {
        MigrationStep::Run { index: current, id: (current + 1) as i64 }
    }
}

/// Whether the text of a migration marks it as skipped.
pub fn starts_with_skip(migration: &[u8]) -> (r: bool)
    ensures
        r == is_skip(migration@),
{
    if migration.len() < 7 {
        return false;
    }
    let r = migration[0] == 0x2du8 && migration[1] == 0x2du8 && migration[2] == 0x20u8
        && migration[3] == 0x53u8 && migration[4] == 0x4bu8 && migration[5] == 0x49u8
        && migration[6] == 0x50u8;
    proof {
        let head = migration@.take(7);
        if r {
            assert(head =~= skip_marker());
        } else {
            assert(head[0] == migration@[0]);
            assert(head[1] == migration@[1]);
            assert(head[2] == migration@[2]);
            assert(head[3] == migration@[3]);
            assert(head[4] == migration@[4]);
            assert(head[5] == migration@[5]);
            assert(head[6] == migration@[6]);
        }
    }
    r
}

/// The next step of a run over `migrations` of which the first `current`
/// have been applied. The ids must fit the column that stores them.
pub fn next_step(migrations: &Vec<Vec<u8>>, current: usize) -> (r: MigrationStep)
    requires
        migrations@.len() + 1 < i64::MAX,
    ensures
        r == step_of(texts(migrations@), current),
{
    if current >= migrations.len() {
        return MigrationStep::Finished;
    }
    let id = (current + 1) as i64;
    if starts_with_skip(migrations[current].as_slice()) {
        MigrationStep::Skip { id }
    } else {
        MigrationStep::Run { index: current, id }
    }
}

} // verus!
