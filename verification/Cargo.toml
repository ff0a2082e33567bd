[package]
name = "bend"
version = "0.1.0"
edition = "2021"

[dependencies]
hvm = "=2.0.22"
indexmap = "=2.14.2"
