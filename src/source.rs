//! Storage back-ends: their configuration, and the interface through which the
//! library reaches their blobs.

use vstd::prelude::*;

verus! {

/// Largest blob that a Discord webhook message accepts.
pub const DISCORD_MAX_SIZE: usize = 1024 * 1024 * 24;

/// Largest blob that a GitHub release asset accepts.
pub const GITHUB_MAX_SIZE: usize = 1024 * 1024 * 1024;

/// Default largest blob of a local folder.
pub const LOCAL_MAX_SIZE: usize = 512 * 1024 * 1024;

/// A folder on the local disk; one file per descriptor.
#[derive(Clone, Debug)]
pub struct LocalSource {
    pub folder: String,
    pub max_size: usize,
    pub descriptor_length: usize,
}

/// A Discord webhook; one message per descriptor.
#[derive(Clone, Debug)]
pub struct DiscordWebhook {
    pub url: String,
}

/// The releases of a GitHub repository; one release per descriptor.
#[derive(Clone, Debug)]
pub struct GithubReleases {
    pub owner: String,
    pub repo: String,
    pub pat: String,
    pub descriptor_length: usize,
}

pub fn default_max_size() -> (r: usize)
    ensures
        r == LOCAL_MAX_SIZE,
{
    LOCAL_MAX_SIZE
}

pub fn default_descriptor_length() -> (r: usize)
    ensures
        r == 24,
{
    24
}

/// The kinds of back-end.
#[derive(Clone, Debug)]
pub enum SourceType {
    LocalSource(LocalSource),
    DiscordWebhook(DiscordWebhook),
    GithubRelease(GithubReleases),
}

impl SourceType {
    pub open spec fn spec_max_size(&self) -> nat {
        match self {
            SourceType::LocalSource(l) => l.max_size as nat,
            SourceType::DiscordWebhook(_) => DISCORD_MAX_SIZE as nat,
            SourceType::GithubRelease(_) => GITHUB_MAX_SIZE as nat,
        }
    }

    /// Largest blob the back-end is guaranteed to accept.
    pub fn max_size(&self) -> (r: usize)
        ensures
            r == self.spec_max_size(),
    {
        match self {
            SourceType::LocalSource(l) => l.max_size,
            SourceType::DiscordWebhook(_) => DISCORD_MAX_SIZE,
            SourceType::GithubRelease(_) => GITHUB_MAX_SIZE,
        }
    }

    /// Short description of the kind of back-end.
    pub fn human_readable(&self) -> (r: &'static str)
        ensures
            self is LocalSource ==> r@ == "local folder"@,
            self is DiscordWebhook ==> r@ == "discord webhook"@,
            self is GithubRelease ==> r@ == "github releases"@,
    {
        proof {
            reveal_strlit("local folder");
            reveal_strlit("discord webhook");
            reveal_strlit("github releases");
        }
        match self {
            SourceType::LocalSource(_) => "local folder",
            SourceType::DiscordWebhook(_) => "discord webhook",
            SourceType::GithubRelease(_) => "github releases",
        }
    }
}

/// Blob storage of every configured bucket, addressed by bucket name and
/// descriptor. Blobs pass through as stored, already encrypted.
///
/// `create` mints a fresh descriptor; `put` on a descriptor that `create` did
/// not mint fails; `delete` of a missing descriptor may fail. Every call may
/// fail with a transport error.
pub trait Source {
    fn create(&mut self, bucket: &String) -> Result<Vec<u8>, String>;

    fn get(&mut self, bucket: &String, descriptor: &Vec<u8>) -> Result<Vec<u8>, String>;

    fn put(&mut self, bucket: &String, descriptor: &Vec<u8>, data: Vec<u8>) -> Result<(), String>;

    fn delete(&mut self, bucket: &String, descriptor: &Vec<u8>) -> Result<(), String>;
}

/// An error of a back-end, as text.
#[derive(Clone, Debug)]
pub struct SourceError {
    pub message: String,
}

impl SourceError {
    pub fn new(message: String) -> (r: SourceError)
        ensures
            r.message == message,
    {
        SourceError { message }
    }
}

} // verus!
