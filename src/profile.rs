//! Credential profiles and the choice of the active one.

use vstd::prelude::*;

verus! {

/// One named set of credentials.
#[derive(Debug)]
pub struct Profile {
    name: String,
    access_key_id: String,
    access_key_secret: String,
    region_id: String,
}

impl Clone for Profile {
    fn clone(&self) -> (r: Self)
        ensures
            r == *self,
    {
        Profile {
            name: self.name.clone(),
            access_key_id: self.access_key_id.clone(),
            access_key_secret: self.access_key_secret.clone(),
            region_id: self.region_id.clone(),
        }
    }
}

impl Profile {
    pub fn new(name: String, access_key_id: String, access_key_secret: String, region_id: String) -> (r: Profile)
        ensures
            r.spec_name() == name@,
            r.spec_access_key_id() == access_key_id@,
            r.spec_access_key_secret() == access_key_secret@,
            r.spec_region_id() == region_id@,
    {
        Profile { name, access_key_id, access_key_secret, region_id }
    }

    pub closed spec fn spec_name(&self) -> Seq<char> {
        self.name@
    }

    pub closed spec fn spec_access_key_id(&self) -> Seq<char> {
        self.access_key_id@
    }

    pub closed spec fn spec_access_key_secret(&self) -> Seq<char> {
        self.access_key_secret@
    }

    pub closed spec fn spec_region_id(&self) -> Seq<char> {
        self.region_id@
    }

    pub fn name(&self) -> (r: &str)
        ensures
            r@ == self.spec_name(),
    {
        self.name.as_str()
    }

    pub fn access_key_id(&self) -> (r: &str)
        ensures
            r@ == self.spec_access_key_id(),
    {
        self.access_key_id.as_str()
    }

    pub fn access_key_secret(&self) -> (r: &str)
        ensures
            r@ == self.spec_access_key_secret(),
    {
        self.access_key_secret.as_str()
    }

    pub fn region_id(&self) -> (r: &str)
        ensures
            r@ == self.spec_region_id(),
    {
        self.region_id.as_str()
    }
}

/// The contents of a credentials file: the name of the current profile and
/// the profiles in file order.
#[derive(Debug)]
pub struct Config {
    current: String,
    profiles: Vec<Profile>,
}

impl Config {
    pub fn new(current: String, profiles: Vec<Profile>) -> (r: Config)
        ensures
            r.spec_current() == current@,
            r.spec_profiles() == profiles@,
    {
        Config { current, profiles }
    }

    pub closed spec fn spec_current(&self) -> Seq<char> {
        self.current@
    }

    pub closed spec fn spec_profiles(&self) -> Seq<Profile> {
        self.profiles@
    }

    pub fn current(&self) -> (r: &str)
        ensures
            r@ == self.spec_current(),
    {
        self.current.as_str()
    }

    pub fn profiles(&self) -> (r: &[Profile])
        ensures
            r@ == self.spec_profiles(),
    {
        self.profiles.as_slice()
    }
}

/// Why no active profile could be chosen.
#[derive(Debug, PartialEq, Eq, Clone, Copy)]
pub enum ProfileError {
    /// The credentials file lists no profile.
    NoProfile,
}

/// The active profile: the first one listed, whatever `current` names.
/// A file with no profile is an error, never an empty profile.
pub fn default_profile(config: &Config) -> (r: Result<Profile, ProfileError>)
    ensures
        config.spec_profiles().len() == 0 <==> r == Err::<Profile, ProfileError>(ProfileError::NoProfile),
        config.spec_profiles().len() > 0 <==> r == Ok::<Profile, ProfileError>(config.spec_profiles()[0]),
{
    if config.profiles.len() == 0 {
        Err(ProfileError::NoProfile)
    } else {
        Ok(config.profiles[0].clone())
    }
}

/// Where the credentials file lies below a home directory.
pub fn config_path(home: &str) -> (r: String)
    ensures
        r@ == home@ + seq!['/', '.', 'a', 'l', 'i', 'y', 'u', 'n', '/', 'c', 'o', 'n', 'f', 'i', 'g', '.', 'j', 's', 'o', 'n'],
{
    let mut r = String::from_str(home);
    r.append("/.aliyun/config.json");
    proof {
        reveal_strlit("/.aliyun/config.json");
    }
    assert(r@ =~= home@ + seq!['/', '.', 'a', 'l', 'i', 'y', 'u', 'n', '/', 'c', 'o', 'n', 'f', 'i', 'g', '.', 'j', 's', 'o', 'n']);
    r
}

} // verus!
