use vstd::prelude::*;
use vstd::string::StringExecFns;

verus! {

/// The directory of this program's files under a user's home directory.
pub open spec fn config_dir_of(home: Seq<char>) -> Seq<char> {
    home + "/.config/pipecryptbackup"@
}

/// The directory that holds the key store.
pub open spec fn crypto_dir_of(home: Seq<char>) -> Seq<char> {
    config_dir_of(home) + "/crypto"@
}

/// The key-store file: one fixed place for each home directory.
pub open spec fn key_store_path_of(home: Seq<char>) -> Seq<char> {
    crypto_dir_of(home) + "/key_nonce.bin"@
}

/// The file that holds the user's name and home directory in readable form.
pub open spec fn config_file_path_of(home: Seq<char>) -> Seq<char> {
    config_dir_of(home) + "/config.ini"@
}

/// The directory of this program's files under the home directory `home`.
pub fn config_dir(home: &str) -> (path: String)
    ensures
        path@ == config_dir_of(home@),
{
    String::from_str(home).concat("/.config/pipecryptbackup")
}

/// The directory that holds the key store, inside `config_dir(home)`.
pub fn crypto_dir(home: &str) -> (path: String)
    ensures
        path@ == crypto_dir_of(home@),
{
    config_dir(home).concat("/crypto")
}

/// The path of the key-store file, inside `crypto_dir(home)`.
pub fn key_store_path(home: &str) -> (path: String)
    ensures
        path@ == key_store_path_of(home@),
{
    crypto_dir(home).concat("/key_nonce.bin")
}

/// The path of the readable configuration file, inside `config_dir(home)`.
pub fn config_file_path(home: &str) -> (path: String)
    ensures
        path@ == config_file_path_of(home@),
{
    config_dir(home).concat("/config.ini")
}

} // verus!
