//! The files that the funder wallets are read from.

use vstd::prelude::*;

use crate::account::AccountId;
use crate::protocol::valid_account_id;
use crate::source_files::{
    copied_path, has_extension, lemma_path_order, order_paths, path_before, path_has_extension,
    path_keys, ComponentKey, Order, SourcePath,
};

verus! {

/// The environment variable that names the file or directory of the funder wallets.
pub const FUNDER_ACCOUNTS_ENV: &'static str = "MIDEN_FUNDER_ACCOUNTS_DIR";

/// What is found at the path that names the funder wallets.
#[derive(Debug)]
pub enum FunderSource {
    /// A file.
    File,
    /// A directory, with the paths of what it holds.
    Directory(Vec<SourcePath>),
    /// Nothing, or neither of these.
    Nothing,
}

/// The extension of account files.
pub open spec fn account_extension() -> Seq<u8> {
    seq![109u8, 97, 99]
}

/// Those of `paths` that lead to account files.
pub open spec fn account_files(paths: Seq<SourcePath>) -> Seq<Seq<ComponentKey>>
    decreases paths.len(),
{
    if paths.len() == 0 {
        Seq::empty()
    } else {
        let before = account_files(paths.drop_last());
        let path = paths.last();
        if has_extension(path.name(), account_extension()) {
            before.push(path@)
        } else {
            before
        }
    }
}

/// The account files that a path names, in no particular order: itself, or what lies in it. An
/// empty path names none.
pub open spec fn named_files(
    path: Option<SourcePath>,
    source: FunderSource,
) -> Seq<Seq<ComponentKey>> {
    match path {
        None => Seq::empty(),
        Some(path) => if path.components@.len() == 0 {
            Seq::empty()
        } else {
            match source {
                FunderSource::File => account_files(seq![path]),
                FunderSource::Directory(entries) => account_files(entries@),
                FunderSource::Nothing => Seq::empty(),
            }
        },
    }
}

/// Whether no path comes before one in front of it.
pub open spec fn sorted(list: Seq<Seq<ComponentKey>>) -> bool {
    forall|i: int, j: int| 0 <= i < j < list.len() ==> !path_before(list[j], list[i])
}

/// Puts a path into a sorted list, behind those that do not come after it.
fn insert_sorted(list: &mut Vec<SourcePath>, path: SourcePath)
    requires
        sorted(path_keys(old(list)@)),
    ensures
        sorted(path_keys(final(list)@)),
        path_keys(final(list)@).to_multiset() == path_keys(old(list)@).to_multiset().insert(path@),
{
    broadcast use vstd::seq_lib::group_to_multiset_ensures;

    let ghost before = path_keys(list@);
    let mut at: usize = list.len();
    while at > 0
        invariant
            at <= list@.len(),
            list@ == old(list)@,
            before == path_keys(list@),
            sorted(before),
            forall|k: int| at <= k < list@.len() ==> path_before(path@, #[trigger] before[k]),
        ensures
            at > 0 ==> !path_before(path@, before[at - 1]),
        decreases at,
    {
        assert(before[at - 1] == list@[at - 1]@);
        if let Order::Before = order_paths(&path, &list[at - 1]) {
            at = at - 1;
        } else {
            break;
        }
    }
    let ghost key = path@;
    list.insert(at, path);
    proof {
        let now = path_keys(list@);
        assert(now =~= before.insert(at as int, key));
        assert forall|i: int, j: int| 0 <= i < j < now.len() implies !path_before(
            now[j],
            now[i],
        ) by {
            if i == at {
                lemma_path_order(before[j - 1], key, before[j - 1]);
            } else if j == at && i < at - 1 {
                lemma_path_order(key, before[at - 1], before[i]);
                lemma_path_order(key, before[i], before[at - 1]);
                lemma_path_order(before[at - 1], key, before[i]);
            }
        }
    }
}

/// The account files that hold the funder wallets, sorted: every process has to agree on their
/// order, or the places where they start to look would not spread them over the wallets.
pub fn funder_files(path: Option<&SourcePath>, source: &FunderSource) -> (r: Vec<SourcePath>)
    ensures
        sorted(path_keys(r@)),
        path_keys(r@).to_multiset() == named_files(
            match path {
                Some(path) => Some(*path),
                None => None,
            },
            *source,
        ).to_multiset(),
{
    broadcast use vstd::seq_lib::group_to_multiset_ensures;

    let mut files: Vec<SourcePath> = Vec::new();
    assert(path_keys(files@) =~= Seq::<Seq<ComponentKey>>::empty());
    let path = match path {
        Some(path) => path,
        None => {
            return files;
        },
    };
    if path.components.len() == 0 {
        return files;
    }
    let extension: [u8; 3] = [109, 97, 99];
    assert(extension@ =~= account_extension());
    match source {
        FunderSource::File => {
            assert(seq![*path].drop_last() =~= Seq::<SourcePath>::empty());
            assert(account_files(Seq::<SourcePath>::empty()) =~= Seq::<Seq<ComponentKey>>::empty());
            if path_has_extension(path, extension.as_slice()) {
                files.push(copied_path(path));
                assert(path_keys(files@) =~= account_files(seq![*path]));
            }
        },
        FunderSource::Directory(entries) => {
            let mut i: usize = 0;
            assert(account_files(entries@.take(0)) =~= Seq::<Seq<ComponentKey>>::empty());
            while i < entries.len()
                invariant
                    i <= entries@.len(),
                    extension@ == account_extension(),
                    sorted(path_keys(files@)),
                    path_keys(files@).to_multiset() == account_files(
                        entries@.take(i as int),
                    ).to_multiset(),
                decreases entries@.len() - i,
            {
                broadcast use vstd::seq_lib::group_to_multiset_ensures;

                let ghost done = entries@.take(i as int + 1);
                assert(done.drop_last() =~= entries@.take(i as int));
                if path_has_extension(&entries[i], extension.as_slice()) {
                    insert_sorted(&mut files, copied_path(&entries[i]));
                }
                i = i + 1;
            }
            assert(entries@.take(i as int) =~= entries@);
        },
        FunderSource::Nothing => {},
    }
    files
}

/// Processes that find the same files agree on their order, whatever order they were found in.
pub proof fn lemma_processes_agree(a: Seq<Seq<ComponentKey>>, b: Seq<Seq<ComponentKey>>)
    requires
        sorted(a),
        sorted(b),
        a.to_multiset() == b.to_multiset(),
    ensures
        a == b,
{
    let leq = |x: Seq<ComponentKey>, y: Seq<ComponentKey>| !path_before(y, x);
    assert forall|x: Seq<ComponentKey>, y: Seq<ComponentKey>, z: Seq<ComponentKey>|
        #[trigger] leq(x, y) && #[trigger] leq(y, z) implies leq(x, z) by {
        lemma_path_order(z, x, y);
        lemma_path_order(x, y, z);
        lemma_path_order(y, z, x);
    }
    assert forall|x: Seq<ComponentKey>, y: Seq<ComponentKey>| #[trigger] leq(x, y) && #[trigger]
        leq(y, x) implies x == y by {
        lemma_path_order(x, y, x);
    }
    assert forall|x: Seq<ComponentKey>, y: Seq<ComponentKey>| #[trigger] leq(x, y) || #[trigger]
        leq(y, x) by {
        lemma_path_order(x, y, x);
        lemma_path_order(y, x, y);
    }
    assert forall|x: Seq<ComponentKey>| #[trigger] leq(x, x) by {
        lemma_path_order(x, x, x);
    }
    assert forall|i: int, j: int| 0 <= i < j < a.len() implies #[trigger] leq(a[i], a[j]) by {}
    assert forall|i: int, j: int| 0 <= i < j < b.len() implies #[trigger] leq(b[i], b[j]) by {}
    vstd::seq_lib::lemma_sorted_unique(a, b, leq);
}

/// What is said of a wallet that must not be shared because its state is not on the chain.
pub open spec fn private_funder(id: AccountId, path: Seq<char>) -> Seq<char> {
    "funder "@ + id.text() + " in "@ + path + " must be public to be shared"@
}

/// What is said of a wallet that cannot sign.
pub open spec fn keyless_funder(id: AccountId, path: Seq<char>) -> Seq<char> {
    "funder "@ + id.text() + " in "@ + path + " carries no secret key to sign with"@
}

/// What reading a file of a funder wallet gave.
#[derive(Debug)]
pub enum FunderRead {
    /// The file could not be read.
    Unreadable,
    /// The file does not hold an account; the text says why.
    Malformed(String),
    /// The file holds an account and this many secret keys.
    Account(AccountId, usize),
}

/// What is wrong with what was read from `path`, if anything.
pub open spec fn funder_fault(path: Seq<char>, read: FunderRead) -> Option<Seq<char>> {
    match read {
        FunderRead::Unreadable => Some("failed to read funder "@ + path),
        FunderRead::Malformed(reason) => Some(
            "failed to deserialize "@ + path + ": "@ + reason@,
        ),
        FunderRead::Account(id, secret_keys) => if !id.is_public_id() {
            Some(private_funder(id, path))
        } else if secret_keys == 0 {
            Some(keyless_funder(id, path))
        } else {
            None
        },
    }
}

/// Lets a wallet through that can be shared and can sign.
///
/// The state of a private account lives in its file alone, so processes that share one would all
/// build on the same stale state. That of a public one is read from the chain.
pub fn check_funder(path: &str, read: &FunderRead) -> (r: Result<AccountId, String>)
    requires
        *read matches FunderRead::Account(id, _) ==> id.is_valid(),
    ensures
        match funder_fault(path@, *read) {
            Some(fault) => r matches Err(reason) && reason@ == fault,
            None => r matches Ok(id) && *read matches FunderRead::Account(found, _) && id == found,
        },
{
    let mut fault = String::new();
    match read {
        FunderRead::Unreadable => {
            fault.append("failed to read funder ");
            fault.append(path);
            assert(fault@ =~= "failed to read funder "@ + path@);
        },
        FunderRead::Malformed(reason) => {
            fault.append("failed to deserialize ");
            fault.append(path);
            fault.append(": ");
            fault.append(reason.as_str());
            assert(fault@ =~= "failed to deserialize "@ + path@ + ": "@ + reason@);
        },
        FunderRead::Account(id, secret_keys) => {
            if id.is_public() && *secret_keys > 0 {
                return Ok(*id);
            }
            fault.append("funder ");
            fault.append(id.to_hex().as_str());
            fault.append(" in ");
            fault.append(path);
            if !id.is_public() {
                fault.append(" must be public to be shared");
                assert(fault@ =~= private_funder(*id, path@));
            } else {
                fault.append(" carries no secret key to sign with");
                assert(fault@ =~= keyless_funder(*id, path@));
            }
        },
    }
    Err(fault)
}

/// What the bytes of an account file hold: the prefix and the suffix of the account's id and the
/// number of its secret keys, or why they are no account file.
pub uninterp spec fn account_file_in(bytes: Seq<u8>) -> Result<(u64, u64, usize), Seq<char>>;

/// `AccountFile::read_from_bytes`, and of what it gives the id of the account and the number of
/// secret keys. The claim is that the outcome is a function of the bytes, and that the id is valid.
/// Which bytes are an account file, and in which words others are refused, is left unsaid.
#[verifier::external_body]
fn account_file(bytes: &[u8]) -> (r: Result<(u64, u64, usize), String>)
    ensures
        match r {
            Ok(found) => account_file_in(bytes@) == Ok::<(u64, u64, usize), Seq<char>>(found)
                && valid_account_id(found.0 as nat, found.1 as nat),
            Err(reason) => account_file_in(bytes@) == Err::<(u64, u64, usize), Seq<char>>(reason@),
        },
{
    let read: Result<miden_protocol::account::AccountFile, _> =
        miden_protocol::utils::serde::Deserializable::read_from_bytes(bytes);
    match read {
        Ok(file) => {
            let id = file.account.id();
            let keys = file.auth_secret_keys.len();
            Ok((id.prefix().as_u64(), id.suffix().as_canonical_u64(), keys))
        },
        Err(error) => Err(error.to_string()),
    }
}

/// The wallet that the bytes of the file at `path` hold, or what is wrong with them.
pub open spec fn funder_in(path: Seq<char>, bytes: Option<Seq<u8>>) -> Result<
    AccountId,
    Seq<char>,
> {
    match bytes {
        None => Err("failed to read funder "@ + path),
        Some(bytes) => match account_file_in(bytes) {
            Err(why) => Err("failed to deserialize "@ + path + ": "@ + why),
            Ok((prefix, suffix, secret_keys)) => {
                let id = AccountId { prefix, suffix };
                match funder_fault(path, FunderRead::Account(id, secret_keys)) {
                    Some(fault) => Err(fault),
                    None => Ok(id),
                }
            },
        },
    }
}

/// Whether `r` is what `outcome` says.
pub open spec fn is_outcome(
    r: Result<AccountId, String>,
    outcome: Result<AccountId, Seq<char>>,
) -> bool {
    match outcome {
        Ok(id) => r == Ok::<AccountId, String>(id),
        Err(fault) => r matches Err(reason) && reason@ == fault,
    }
}

/// The wallet that the file at `path` holds, given its bytes, if it could be read.
pub fn read_funder(path: &str, bytes: Option<&[u8]>) -> (r: Result<AccountId, String>)
    ensures
        is_outcome(
            r,
            funder_in(
                path@,
                match bytes {
                    Some(bytes) => Some(bytes@),
                    None => None,
                },
            ),
        ),
{
    let read = match bytes {
        None => FunderRead::Unreadable,
        Some(bytes) => match account_file(bytes) {
            Ok((prefix, suffix, secret_keys)) => FunderRead::Account(
                AccountId { prefix, suffix },
                secret_keys,
            ),
            Err(reason) => FunderRead::Malformed(reason),
        },
    };
    check_funder(path, &read)
}

/// A file of a funder wallet: its path as it is shown, and its bytes, if it could be read.
#[derive(Debug)]
pub struct FunderFile {
    pub path: String,
    pub bytes: Option<Vec<u8>>,
}

impl FunderFile {
    /// The wallet that the file holds, or what is wrong with it.
    pub open spec fn wallet(self) -> Result<AccountId, Seq<char>> {
        funder_in(
            self.path@,
            match self.bytes {
                Some(bytes) => Some(bytes@),
                None => None,
            },
        )
    }
}

/// The wallets that the files hold, in their order, or what is wrong with the first file that holds
/// none.
pub open spec fn loaded(files: Seq<FunderFile>) -> Result<Seq<AccountId>, Seq<char>>
    decreases files.len(),
{
    if files.len() == 0 {
        Ok(Seq::empty())
    } else {
        match loaded(files.drop_last()) {
            Err(fault) => Err(fault),
            Ok(front) => match files.last().wallet() {
                Ok(id) => Ok(front.push(id)),
                Err(fault) => Err(fault),
            },
        }
    }
}

proof fn lemma_first_fault_stays(files: Seq<FunderFile>, n: int)
    requires
        0 <= n <= files.len(),
        loaded(files.take(n)) is Err,
    ensures
        loaded(files) == loaded(files.take(n)),
    decreases files.len() - n,
{
    if n < files.len() {
        assert(files.take(n + 1).drop_last() =~= files.take(n));
        lemma_first_fault_stays(files, n + 1);
    } else {
        assert(files.take(n) =~= files);
    }
}

/// The wallets that the files hold, in their order. A file that is there but holds no wallet that
/// can be shared and can sign is an error.
pub fn load_funders(files: &[FunderFile]) -> (r: Result<Vec<AccountId>, String>)
    ensures
        match loaded(files@) {
            Ok(wallets) => r matches Ok(ids) && ids@ == wallets,
            Err(fault) => r matches Err(reason) && reason@ == fault,
        },
{
    let mut wallets: Vec<AccountId> = Vec::new();
    let mut i: usize = 0;
    assert(files@.take(0) =~= Seq::<FunderFile>::empty());
    assert(wallets@ =~= Seq::<AccountId>::empty());
    while i < files.len()
        invariant
            i <= files@.len(),
            loaded(files@.take(i as int)) == Ok::<Seq<AccountId>, Seq<char>>(wallets@),
        decreases files@.len() - i,
    {
        let file = &files[i];
        proof {
            let done = files@.take(i as int + 1);
            assert(done.drop_last() =~= files@.take(i as int));
            assert(done.last() == *file);
            if loaded(done) is Err {
                lemma_first_fault_stays(files@, i as int + 1);
            }
        }
        let read = match &file.bytes {
            Some(bytes) => read_funder(file.path.as_str(), Some(bytes.as_slice())),
            None => read_funder(file.path.as_str(), None),
        };
        match read {
            Ok(id) => {
                wallets.push(id);
            },
            Err(fault) => {
                return Err(fault);
            },
        }
        i = i + 1;
    }
    assert(files@.take(i as int) =~= files@);
    Ok(wallets)
}

/// A load gives one wallet for each file, in their order, exactly where every file holds one that
/// can be used; else it gives what is wrong with the first that does not.
pub proof fn lemma_one_wallet_for_each_file(files: Seq<FunderFile>)
    ensures
        loaded(files) is Ok <==> forall|i: int|
            0 <= i < files.len() ==> (#[trigger] files[i]).wallet() is Ok,
        loaded(files) matches Ok(wallets) ==> wallets.len() == files.len() && forall|i: int|
            0 <= i < files.len() ==> (#[trigger] files[i]).wallet() == Ok::<
                AccountId,
                Seq<char>,
            >(wallets[i]),
        loaded(files) matches Err(fault) ==> exists|i: int|
            #![trigger files[i]]
            0 <= i < files.len() && files[i].wallet() == Err::<AccountId, Seq<char>>(fault)
                && forall|j: int| 0 <= j < i ==> (#[trigger] files[j]).wallet() is Ok,
    decreases files.len(),
{
    if files.len() > 0 {
        let front = files.drop_last();
        lemma_one_wallet_for_each_file(front);
        assert forall|i: int| 0 <= i < front.len() implies front[i] == #[trigger] files[i] by {}
        assert(files[files.len() - 1] == files.last());
        match loaded(front) {
            Err(fault) => {
                let i = choose|i: int|
                    #![trigger front[i]]
                    0 <= i < front.len() && front[i].wallet() == Err::<AccountId, Seq<char>>(fault)
                        && forall|j: int| 0 <= j < i ==> (#[trigger] front[j]).wallet() is Ok;
                assert(files[i].wallet() == Err::<AccountId, Seq<char>>(fault));
                assert forall|j: int| 0 <= j < i implies (#[trigger] files[j]).wallet() is Ok by {
                    assert(front[j].wallet() is Ok);
                }
            },
            Ok(wallets) => {
                assert forall|i: int| 0 <= i < front.len() implies (#[trigger] files[i]).wallet()
                    == Ok::<AccountId, Seq<char>>(wallets[i]) by {
                    assert(front[i].wallet() == Ok::<AccountId, Seq<char>>(wallets[i]));
                }
                if files.last().wallet() is Err {
                    assert(files[files.len() - 1].wallet() is Err);
                }
            },
        }
    }
}

/// A path that names no account file leaves a run without funders: there is nothing to read, and
/// what is loaded from nothing is no wallet.
pub proof fn lemma_no_files_no_funders(
    path: Option<SourcePath>,
    source: FunderSource,
    found: Seq<SourcePath>,
    files: Seq<FunderFile>,
)
    requires
        path_keys(found).to_multiset() == named_files(path, source).to_multiset(),
        named_files(path, source).len() == 0,
        files.len() == found.len(),
    ensures
        loaded(files) == Ok::<Seq<AccountId>, Seq<char>>(Seq::empty()),
{
    broadcast use vstd::seq_lib::group_to_multiset_ensures;

    assert(path_keys(found).len() == 0) by {
        assert(path_keys(found).to_multiset().len() == path_keys(found).len());
        assert(named_files(path, source).to_multiset().len() == 0);
    }
}

/// Every entry of a directory with the extension `mac` is a file of a funder, as often as it is
/// listed, and no other entry is. A file is its own, under the same condition.
pub proof fn lemma_every_account_file_is_named(
    path: SourcePath,
    entries: Vec<SourcePath>,
    listed: Seq<SourcePath>,
    entry: SourcePath,
)
    requires
        path.components@.len() > 0,
    ensures
        named_files(Some(path), FunderSource::Directory(entries)) == account_files(entries@),
        account_files(Seq::empty()).len() == 0,
        has_extension(entry.name(), seq![109u8, 97, 99]) ==> account_files(listed.push(entry))
            == account_files(listed).push(entry@),
        !has_extension(entry.name(), seq![109u8, 97, 99]) ==> account_files(listed.push(entry))
            == account_files(listed),
        has_extension(path.name(), seq![109u8, 97, 99]) ==> named_files(
            Some(path),
            FunderSource::File,
        ) == seq![path@],
        !has_extension(path.name(), seq![109u8, 97, 99]) ==> named_files(
            Some(path),
            FunderSource::File,
        ).len() == 0,
{
    assert(listed.push(entry).drop_last() =~= listed);
    assert(seq![path].drop_last() =~= Seq::<SourcePath>::empty());
    assert(account_files(Seq::<SourcePath>::empty()) =~= Seq::<Seq<ComponentKey>>::empty());
    assert(Seq::<Seq<ComponentKey>>::empty().push(path@) =~= seq![path@]);
}

/// Without a path, with an empty one or with one that leads to nothing there are no files.
pub proof fn lemma_no_path_names_no_file(path: SourcePath, source: FunderSource)
    ensures
        named_files(None, source).len() == 0,
        path.components@.len() == 0 ==> named_files(Some(path), source).len() == 0,
        named_files(Some(path), FunderSource::Nothing).len() == 0,
{
}

/// A file gives a wallet exactly where its bytes could be read and are an account that is public and
/// has a key to sign with; the wallet is that account. Otherwise the fault names the file, and the
/// account where there is one.
pub proof fn lemma_public_accounts_with_keys_are_wallets(
    file: FunderFile,
    prefix: u64,
    suffix: u64,
    secret_keys: usize,
)
    ensures
        file.bytes is None ==> file.wallet() == Err::<AccountId, Seq<char>>(
            "failed to read funder "@ + file.path@,
        ),
        file.bytes is Some && account_file_in(file.bytes->0@) is Err ==> file.wallet() == Err::<
            AccountId,
            Seq<char>,
        >("failed to deserialize "@ + file.path@ + ": "@ + account_file_in(file.bytes->0@)->Err_0),
        file.bytes is Some && account_file_in(file.bytes->0@) == Ok::<(u64, u64, usize), Seq<char>>(
            (prefix, suffix, secret_keys),
        ) ==> ({
            let id = AccountId { prefix, suffix };
            &&& file.wallet() is Ok <==> prefix / 16 % 2 == 1 && secret_keys > 0
            &&& file.wallet() is Ok ==> file.wallet()->Ok_0 == id
            &&& prefix / 16 % 2 == 0 ==> file.wallet() == Err::<AccountId, Seq<char>>(
                "funder "@ + id.text() + " in "@ + file.path@ + " must be public to be shared"@,
            )
            &&& prefix / 16 % 2 == 1 && secret_keys == 0 ==> file.wallet() == Err::<
                AccountId,
                Seq<char>,
            >(
                "funder "@ + id.text() + " in "@ + file.path@
                    + " carries no secret key to sign with"@,
            )
        }),
{
}

/// What was found is handed on as it is: the wallet, or the fault word for word.
pub proof fn lemma_outcomes_are_handed_on(
    r: Result<AccountId, String>,
    outcome: Result<AccountId, Seq<char>>,
)
    requires
        is_outcome(r, outcome),
    ensures
        r is Ok <==> outcome is Ok,
        r is Ok ==> r->Ok_0 == outcome->Ok_0,
        r is Err ==> r->Err_0@ == outcome->Err_0,
{
}

} // verus!
